//! The protocol of the two servers as a whole.
//!
//! [`survivors`] and [`heavy_hitters`] say what the rounds of crawling and
//! pruning compute from the keys of the two servers, [`run`] plays both
//! servers in one process, and [`flag_mismatches`] is the comparison by which
//! the servers find the keys that were not generated honestly.
//!
//! The laws of the protocol are stated over these definitions:
//!
//! - its result does not depend on the order of the keys
//!   ([`lemma_order_independent`]);
//! - the frontier of a level holds exactly the paths whose every prefix
//!   reaches the threshold ([`lemma_survivors_are_heavy`]), so that every path
//!   of a later frontier continues a path of every earlier one
//!   ([`lemma_survivors_ancestors`]);
//! - with honest keys the servers reconstruct what the clients on a path have
//!   put in ([`lemma_counts_reconstruct`]), counts fall along the tree
//!   ([`lemma_child_count_bounded`]), the protocol reports exactly the heavy
//!   hitters ([`lemma_heavy_hitters_exact`]), and the two servers compute the
//!   same verification digests and hash chains ([`lemma_digests_agree`],
//!   [`lemma_chains_agree`]), so that a run flags no key
//!   ([`lemma_honest_run_flags_nobody`]).

use vstd::prelude::*;
use vstd::arithmetic::div_mod::lemma_add_mod_noop;
use vstd::seq_lib::{commutative_foldl, lemma_fold_left_permutation};
use crate::collect::{
    add_proof, add_share, chain_over, chains_over, children, counts_at, descend, entry_digest,
    exclude, hashes, hitters, keep_spec, lemma_descend_one, retain, share_sum, shares_at,
    sum_hitters, values_wf, Entry, HeavyHitter, KeyCollection,
};
use crate::dpf::{lemma_shares_recombine, on_path, share_at};
use crate::group::{add_mod, lemma_add_mod_assoc, Group};
use crate::vidpf::{
    is_vidpf_pair, lemma_proofs_agree, lemma_vidpf_pair_is_key_pair, VidpfModel,
};

verus! {

/// The frontier that both servers hold after the rounds of the first
/// `levels` levels: a round replaces every path by its two children and keeps
/// the children whose count reaches the threshold.
pub open spec fn survivors(e0: Seq<Entry>, e1: Seq<Entry>, threshold: nat, m: nat, levels: nat)
    -> Seq<Seq<bool>>
    decreases levels,
{
    if levels == 0 {
        seq![Seq::<bool>::empty()]
    } else {
        let grown = children(survivors(e0, e1, threshold, m, (levels - 1) as nat));
        retain(grown, keep_spec(threshold, counts_at(e0, grown, m), counts_at(e1, grown, m), m))
    }
}

/// The nodes of the last level that the servers visit in a domain of `bits`
/// bits: the children of the paths that survive the rounds before it.
pub open spec fn last_level(e0: Seq<Entry>, e1: Seq<Entry>, threshold: nat, m: nat, bits: nat)
    -> Seq<Seq<bool>> {
    children(survivors(e0, e1, threshold, m, (bits - 1) as nat))
}

/// What the protocol reports for a domain of `bits` bits: the paths that
/// survive all rounds, each with its count.
pub open spec fn heavy_hitters(e0: Seq<Entry>, e1: Seq<Entry>, threshold: nat, m: nat, bits: nat)
    -> Seq<(Seq<bool>, nat)> {
    let paths = survivors(e0, e1, threshold, m, bits);
    sum_hitters(shares_at(e0, paths, m), shares_at(e1, paths, m), m)
}

/// Adding shares to a sum commutes: the sum may take in the shares in any
/// order.
pub proof fn lemma_add_share_commutes(path: Seq<bool>, m: nat)
    requires
        m > 0,
    ensures
        commutative_foldl(add_share(path, m)),
{
    let f = add_share(path, m);
    assert forall|x: Entry, y: Entry, v: nat| #[trigger] f(f(v, x), y) == f(f(v, y), x) by {
        let a = share_at(x.key.key, path, m);
        let b = share_at(y.key.key, path, m);
        if x.admitted && y.admitted {
            lemma_add_mod_assoc(v, a, b, m);
            lemma_add_mod_assoc(v, b, a, m);
        }
    }
}

/// A server's share of a count does not depend on the order of its keys.
pub proof fn lemma_share_sum_permutation(a: Seq<Entry>, b: Seq<Entry>, path: Seq<bool>, m: nat)
    requires
        m > 0,
        a.to_multiset() == b.to_multiset(),
    ensures
        share_sum(a, path, m) == share_sum(b, path, m),
{
    lemma_add_share_commutes(path, m);
    lemma_fold_left_permutation(a, b, add_share(path, m), 0nat);
}

/// The rounds keep the same paths, whatever the order of the keys.
pub proof fn lemma_survivors_permutation(
    a0: Seq<Entry>,
    a1: Seq<Entry>,
    b0: Seq<Entry>,
    b1: Seq<Entry>,
    threshold: nat,
    m: nat,
    levels: nat,
)
    requires
        m > 0,
        a0.to_multiset() == b0.to_multiset(),
        a1.to_multiset() == b1.to_multiset(),
    ensures
        survivors(a0, a1, threshold, m, levels) == survivors(b0, b1, threshold, m, levels),
    decreases levels,
{
    if levels > 0 {
        lemma_survivors_permutation(a0, a1, b0, b1, threshold, m, (levels - 1) as nat);
        let grown = children(survivors(a0, a1, threshold, m, (levels - 1) as nat));
        assert forall|j: int| 0 <= j < grown.len() implies share_sum(a0, #[trigger] grown[j], m)
            == share_sum(b0, grown[j], m) && share_sum(a1, grown[j], m) == share_sum(
            b1,
            grown[j],
            m,
        ) by {
            lemma_share_sum_permutation(a0, b0, grown[j], m);
            lemma_share_sum_permutation(a1, b1, grown[j], m);
        }
        assert(counts_at(a0, grown, m) =~= counts_at(b0, grown, m));
        assert(counts_at(a1, grown, m) =~= counts_at(b1, grown, m));
    }
}

/// The result of the protocol does not depend on the order in which the keys
/// were added: two runs whose servers hold the same keys, each any number of
/// times, report the same paths with the same counts.
pub proof fn lemma_order_independent(
    a0: Seq<Entry>,
    a1: Seq<Entry>,
    b0: Seq<Entry>,
    b1: Seq<Entry>,
    threshold: nat,
    m: nat,
    bits: nat,
)
    requires
        m > 0,
        a0.to_multiset() == b0.to_multiset(),
        a1.to_multiset() == b1.to_multiset(),
    ensures
        heavy_hitters(a0, a1, threshold, m, bits) == heavy_hitters(b0, b1, threshold, m, bits),
{
    lemma_survivors_permutation(a0, a1, b0, b1, threshold, m, bits);
    let paths = survivors(a0, a1, threshold, m, bits);
    assert forall|j: int| 0 <= j < paths.len() implies share_sum(a0, #[trigger] paths[j], m)
        == share_sum(b0, paths[j], m) && share_sum(a1, paths[j], m) == share_sum(
        b1,
        paths[j],
        m,
    ) by {
        lemma_share_sum_permutation(a0, b0, paths[j], m);
        lemma_share_sum_permutation(a1, b1, paths[j], m);
    }
    assert(shares_at(a0, paths, m) =~= shares_at(b0, paths, m));
    assert(shares_at(a1, paths, m) =~= shares_at(b1, paths, m));
}

/// An empty list excludes no key.
pub proof fn lemma_exclude_nothing(entries: Seq<Entry>)
    ensures
        exclude(entries, Seq::<usize>::empty()) == entries,
{
    assert(exclude(entries, Seq::<usize>::empty()) =~= entries);
}

/// The indices below `n` at which two lists of hash chains differ, in
/// ascending order: the keys that give themselves away.
pub open spec fn mismatches(c0: Seq<Seq<u8>>, c1: Seq<Seq<u8>>, n: nat) -> Seq<usize>
    decreases n,
{
    if n == 0 {
        Seq::empty()
    } else {
        let rest = mismatches(c0, c1, (n - 1) as nat);
        if c0[n - 1] != c1[n - 1] {
            rest.push((n - 1) as usize)
        } else {
            rest
        }
    }
}

/// Chains that agree flag no key.
pub proof fn lemma_no_mismatch(c0: Seq<Seq<u8>>, c1: Seq<Seq<u8>>, n: nat)
    requires
        forall|i: int| 0 <= i < n ==> c0[i] == c1[i],
    ensures
        mismatches(c0, c1, n).len() == 0,
    decreases n,
{
    if n > 0 {
        lemma_no_mismatch(c0, c1, (n - 1) as nat);
    }
}

/// Whether two hash values are the same.
fn same_hash(a: &[u8; 32], b: &[u8; 32]) -> (same: bool)
    ensures
        same == (a@ == b@),
{
    let mut j: usize = 0;
    while j < 32
        invariant
            j <= 32,
            forall|k: int| 0 <= k < j ==> a@[k] == b@[k],
        decreases 32 - j,
    {
        if a[j] != b[j] {
            return false;
        }
        j += 1;
    }
    assert(a@ =~= b@);
    true
}

/// Compares the hash chains that the two servers hold for their keys, key by
/// key, and flags the keys whose chains differ: their indices, in ascending
/// order. These are the indices to exclude from later rounds.
pub fn flag_mismatches(chains0: &[[u8; 32]], chains1: &[[u8; 32]]) -> (flagged: Vec<usize>)
    requires
        chains0@.len() == chains1@.len(),
    ensures
        flagged@ == mismatches(hashes(chains0@), hashes(chains1@), chains0@.len()),
{
    let mut flagged: Vec<usize> = Vec::new();
    let mut i: usize = 0;
    while i < chains0.len()
        invariant
            i <= chains0@.len(),
            chains0@.len() == chains1@.len(),
            flagged@ == mismatches(hashes(chains0@), hashes(chains1@), i as nat),
        decreases chains0@.len() - i,
    {
        if !same_hash(&chains0[i], &chains1[i]) {
            flagged.push(i);
        }
        i += 1;
    }
    flagged
}

/// Plays both servers of the protocol in one process, from the root of the
/// tree to the paths of full length. Both collections hold their keys and
/// have not begun their walk.
///
/// The first result holds the paths that survive every round, each with its
/// count. The second holds the indices of the keys for which, after the last
/// level, the two servers hold different hash chains; it is advisory, and the
/// first result does not depend on it.
pub fn run<T: Group>(
    col0: &mut KeyCollection<T>,
    col1: &mut KeyCollection<T>,
    threshold: &T,
) -> (out: (Vec<HeavyHitter<T>>, Vec<usize>))
    requires
        old(col0).wf(),
        old(col1).wf(),
        !old(col0).started(),
        !old(col1).started(),
        threshold.wf(),
        old(col0).domain_bits() == old(col1).domain_bits(),
        old(col0).domain_bits() >= 1,
        old(col0).entries().len() == old(col1).entries().len(),
    ensures
        final(col0).wf(),
        final(col1).wf(),
        final(col0).entries() == old(col0).entries(),
        final(col1).entries() == old(col1).entries(),
        values_wf(out.0@),
        hitters(out.0@) == heavy_hitters(
            old(col0).entries(),
            old(col1).entries(),
            threshold.val(),
            T::modulus(),
            old(col0).domain_bits(),
        ),
        final(col0).chains() == chains_over(
            old(col0).entries(),
            last_level(
                old(col0).entries(),
                old(col1).entries(),
                threshold.val(),
                T::modulus(),
                old(col0).domain_bits(),
            ),
            old(col0).chains(),
        ),
        final(col1).chains() == chains_over(
            old(col1).entries(),
            last_level(
                old(col0).entries(),
                old(col1).entries(),
                threshold.val(),
                T::modulus(),
                old(col0).domain_bits(),
            ),
            old(col1).chains(),
        ),
        out.1@ == mismatches(
            final(col0).chains(),
            final(col1).chains(),
            final(col0).chains().len(),
        ),
        final(col0).paths() == final(col1).paths(),
        final(col0).paths() == survivors(
            old(col0).entries(),
            old(col1).entries(),
            threshold.val(),
            T::modulus(),
            old(col0).domain_bits(),
        ),
{
    let ghost e0 = col0.entries();
    let ghost e1 = col1.entries();
    let ghost t = threshold.val();
    let ghost m = T::modulus();
    let ghost start0 = col0.chains();
    let ghost start1 = col1.chains();
    let bits = col0.depth();
    col0.tree_init();
    col1.tree_init();
    let nobody: Vec<usize> = Vec::new();
    let mut level: usize = 0;
    proof {
        lemma_exclude_nothing(e0);
        lemma_exclude_nothing(e1);
    }
    while level + 1 < bits
        invariant
            level + 1 <= bits,
            bits == col0.domain_bits(),
            bits == col1.domain_bits(),
            col0.wf(),
            col1.wf(),
            col0.started(),
            col1.started(),
            threshold.wf(),
            t == threshold.val(),
            m == T::modulus(),
            col0.entries() == e0,
            col1.entries() == e1,
            col0.chains() == start0,
            col1.chains() == start1,
            col0.level() == level,
            col1.level() == level,
            col0.paths() == survivors(e0, e1, t, m, level as nat),
            col1.paths() == col0.paths(),
            nobody@ == Seq::<usize>::empty(),
            exclude(e0, Seq::<usize>::empty()) == e0,
            exclude(e1, Seq::<usize>::empty()) == e1,
        decreases bits - level,
    {
        proof {
            lemma_descend_one(col0.paths());
        }
        let (counts0, _, _) = col0.tree_crawl(1, nobody.as_slice(), false);
        let (counts1, _, _) = col1.tree_crawl(1, nobody.as_slice(), false);
        let keep = KeyCollection::<T>::keep_values(
            threshold,
            counts0.as_slice(),
            counts1.as_slice(),
        );
        col0.tree_prune(keep.as_slice());
        col1.tree_prune(keep.as_slice());
        level += 1;
    }
    let (counts0, chains0) = col0.tree_crawl_last();
    let (counts1, chains1) = col1.tree_crawl_last();
    proof {
        col0.lemma_shape();
        col1.lemma_shape();
        assert(hashes(chains0@).len() == chains0@.len());
        assert(hashes(chains1@).len() == chains1@.len());
    }
    let flagged = flag_mismatches(chains0.as_slice(), chains1.as_slice());
    let keep = KeyCollection::<T>::keep_values(threshold, counts0.as_slice(), counts1.as_slice());
    col0.tree_prune(keep.as_slice());
    col1.tree_prune(keep.as_slice());
    let shares0 = col0.final_shares();
    let shares1 = col1.final_shares();
    proof {
        assert(hitters(shares0@).len() == shares0@.len());
        assert(hitters(shares1@).len() == shares1@.len());
        assert forall|j: int| 0 <= j < shares0@.len() implies (#[trigger] shares0@[j]).path@
            == shares1@[j].path@ by {
            assert(hitters(shares0@)[j].0 == shares0@[j].path@);
            assert(hitters(shares1@)[j].0 == shares1@[j].path@);
        }
    }
    let found = KeyCollection::<T>::final_values(shares0.as_slice(), shares1.as_slice());
    (found, flagged)
}

/// A path that a pruning keeps was in the frontier, with its flag set; and
/// every such path is kept.
pub proof fn lemma_retain_member(paths: Seq<Seq<bool>>, keep: Seq<bool>, q: Seq<bool>)
    requires
        keep.len() == paths.len(),
    ensures
        retain(paths, keep).contains(q) <==> exists|j: int|
            0 <= j < paths.len() && #[trigger] paths[j] == q && keep[j],
    decreases paths.len(),
{
    if paths.len() > 0 {
        let rest = retain(paths.drop_last(), keep.drop_last());
        lemma_retain_member(paths.drop_last(), keep.drop_last(), q);
        let last = paths.len() - 1;
        if retain(paths, keep).contains(q) {
            let kept = retain(paths, keep);
            let k = choose|k: int| 0 <= k < kept.len() && kept[k] == q;
            if keep.last() && k == rest.len() {
                assert(paths[last] == q && keep[last]);
            } else {
                assert(rest[k] == q);
                assert(rest.contains(q));
                let j = choose|j: int|
                    0 <= j < paths.drop_last().len() && #[trigger] paths.drop_last()[j] == q
                        && keep.drop_last()[j];
                assert(paths[j] == q && keep[j]);
            }
        }
        if exists|j: int| 0 <= j < paths.len() && #[trigger] paths[j] == q && keep[j] {
            let j = choose|j: int| 0 <= j < paths.len() && #[trigger] paths[j] == q && keep[j];
            if j == last {
                assert(retain(paths, keep)[rest.len() as int] == q);
            } else {
                assert(paths.drop_last()[j] == q && keep.drop_last()[j]);
                assert(rest.contains(q));
                let k = choose|k: int| 0 <= k < rest.len() && rest[k] == q;
                assert(retain(paths, keep)[k] == q);
            }
        }
    }
}

/// The paths of a frontier after a crawl of one level are the paths of the
/// frontier before it, each continued by one bit.
pub proof fn lemma_children_member(paths: Seq<Seq<bool>>, q: Seq<bool>)
    ensures
        children(paths).contains(q) <==> q.len() >= 1 && paths.contains(q.drop_last()),
{
    if children(paths).contains(q) {
        let k = choose|k: int| 0 <= k < children(paths).len() && children(paths)[k] == q;
        assert(q == paths[k / 2].push(k % 2 == 1));
        assert(q.drop_last() =~= paths[k / 2]);
    }
    if q.len() >= 1 && paths.contains(q.drop_last()) {
        let j = choose|j: int| 0 <= j < paths.len() && paths[j] == q.drop_last();
        let k = if q.last() {
            2 * j + 1
        } else {
            2 * j
        };
        assert(children(paths)[k] =~= q);
    }
}

/// Every path of the frontier after a crawl of `d` levels continues a path of
/// the frontier before it by `d` bits.
pub proof fn lemma_descend_ancestors(paths: Seq<Seq<bool>>, d: nat, q: Seq<bool>)
    requires
        descend(paths, d).contains(q),
    ensures
        q.len() >= d,
        paths.contains(q.take(q.len() - d)),
    decreases d,
{
    if d == 0 {
        assert(q.take(q.len() as int) =~= q);
    } else {
        lemma_children_member(descend(paths, (d - 1) as nat), q);
        lemma_descend_ancestors(paths, (d - 1) as nat, q.drop_last());
        assert(q.drop_last().take(q.drop_last().len() - (d - 1)) =~= q.take(q.len() - d));
    }
}

/// The count of a path that the two servers reconstruct.
pub open spec fn count_at(e0: Seq<Entry>, e1: Seq<Entry>, path: Seq<bool>, m: nat) -> nat {
    add_mod(share_sum(e0, path, m), share_sum(e1, path, m), m)
}

/// The frontier after the rounds of `levels` levels holds exactly the paths
/// of `levels` bits of which every non-empty prefix has a count that reaches
/// the threshold.
pub proof fn lemma_survivors_are_heavy(
    e0: Seq<Entry>,
    e1: Seq<Entry>,
    threshold: nat,
    m: nat,
    levels: nat,
    q: Seq<bool>,
)
    ensures
        survivors(e0, e1, threshold, m, levels).contains(q) <==> q.len() == levels && forall|
            k: int,
        |
            1 <= k <= levels ==> count_at(e0, e1, #[trigger] q.take(k), m) >= threshold,
    decreases levels,
{
    let now = survivors(e0, e1, threshold, m, levels);
    if levels == 0 {
        if now.contains(q) {
            let k = choose|k: int| 0 <= k < now.len() && now[k] == q;
        }
        if q.len() == 0 {
            assert(now[0] =~= q);
        }
    } else {
        let before = survivors(e0, e1, threshold, m, (levels - 1) as nat);
        let grown = children(before);
        let keep = keep_spec(threshold, counts_at(e0, grown, m), counts_at(e1, grown, m), m);
        lemma_retain_member(grown, keep, q);
        lemma_children_member(before, q);
        lemma_survivors_are_heavy(e0, e1, threshold, m, (levels - 1) as nat, q.drop_last());
        let heavy = |r: Seq<bool>, n: int|
            forall|k: int| 1 <= k <= n ==> count_at(e0, e1, #[trigger] r.take(k), m) >= threshold;
        if now.contains(q) {
            let j = choose|j: int| 0 <= j < grown.len() && #[trigger] grown[j] == q && keep[j];
            assert(grown.contains(q));
            assert(count_at(e0, e1, q, m) >= threshold);
            assert forall|k: int| 1 <= k <= levels implies count_at(
                e0,
                e1,
                #[trigger] q.take(k),
                m,
            ) >= threshold by {
                if k == levels {
                    assert(q.take(k) =~= q);
                } else {
                    assert(q.drop_last().take(k) =~= q.take(k));
                }
            }
        }
        if q.len() == levels && heavy(q, levels as int) {
            assert forall|k: int| 1 <= k <= levels - 1 implies count_at(
                e0,
                e1,
                #[trigger] q.drop_last().take(k),
                m,
            ) >= threshold by {
                assert(q.drop_last().take(k) =~= q.take(k));
            }
            assert(before.contains(q.drop_last()));
            assert(grown.contains(q));
            let j = choose|j: int| 0 <= j < grown.len() && grown[j] == q;
            assert(q.take(levels as int) =~= q);
            assert(keep[j]);
        }
    }
}

/// Pruning is for good: every path of a later frontier continues a path of
/// every earlier one. So a path that left the frontier at some level has no
/// continuation in any later frontier, nor in the result of the protocol.
pub proof fn lemma_survivors_ancestors(
    e0: Seq<Entry>,
    e1: Seq<Entry>,
    threshold: nat,
    m: nat,
    early: nat,
    late: nat,
    q: Seq<bool>,
)
    requires
        early <= late,
        survivors(e0, e1, threshold, m, late).contains(q),
    ensures
        q.len() == late,
        survivors(e0, e1, threshold, m, early).contains(q.take(early as int)),
{
    lemma_survivors_are_heavy(e0, e1, threshold, m, late, q);
    lemma_survivors_are_heavy(e0, e1, threshold, m, early, q.take(early as int));
    assert forall|k: int| 1 <= k <= early implies count_at(
        e0,
        e1,
        #[trigger] q.take(early as int).take(k),
        m,
    ) >= threshold by {
        assert(q.take(early as int).take(k) =~= q.take(k));
    }
}

/// The number that the admitted clients whose point continues `p` have put
/// in: the sum of their payloads.
pub open spec fn client_count(
    admitted: Seq<bool>,
    alphas: Seq<Seq<bool>>,
    betas: Seq<nat>,
    p: Seq<bool>,
) -> nat
    decreases alphas.len(),
{
    if alphas.len() == 0 {
        0
    } else {
        let rest = client_count(admitted.drop_last(), alphas.drop_last(), betas.drop_last(), p);
        if admitted.last() && on_path(alphas.last(), p) {
            rest + betas.last()
        } else {
            rest
        }
    }
}

/// The admission flags of a list of entries.
pub open spec fn flags(e: Seq<Entry>) -> Seq<bool> {
    Seq::new(e.len(), |i: int| e[i].admitted)
}

/// Whether the two servers hold, key by key, the two halves of pairs that
/// were generated for the points `alphas` and the payloads `betas`, and agree
/// on which keys are admitted.
pub open spec fn honest_keys(
    e0: Seq<Entry>,
    e1: Seq<Entry>,
    alphas: Seq<Seq<bool>>,
    betas: Seq<nat>,
    m: nat,
) -> bool {
    &&& e0.len() == e1.len()
    &&& e0.len() == alphas.len()
    &&& e0.len() == betas.len()
    &&& forall|i: int|
        0 <= i < e0.len() ==> {
            &&& (#[trigger] e0[i]).admitted == e1[i].admitted
            &&& betas[i] < m
            &&& is_vidpf_pair(e0[i].key, e1[i].key, alphas[i], betas[i], m)
        }
}

/// With honest keys, the two servers' shares of the count of a path add up
/// to the number that the admitted clients on that path have put in, modulo
/// the order of the group.
pub proof fn lemma_counts_reconstruct(
    e0: Seq<Entry>,
    e1: Seq<Entry>,
    alphas: Seq<Seq<bool>>,
    betas: Seq<nat>,
    m: nat,
    p: Seq<bool>,
)
    requires
        m > 0,
        honest_keys(e0, e1, alphas, betas, m),
        p.len() >= 1,
        forall|i: int| 0 <= i < alphas.len() ==> p.len() <= (#[trigger] alphas[i]).len(),
    ensures
        count_at(e0, e1, p, m) == client_count(flags(e0), alphas, betas, p) % m,
    decreases e0.len(),
{
    let mi = m as int;
    if e0.len() == 0 {
        vstd::arithmetic::div_mod::lemma_small_mod(0, m);
    } else {
        let n = e0.len() - 1;
        let f0 = e0.drop_last();
        let f1 = e1.drop_last();
        assert(honest_keys(f0, f1, alphas.drop_last(), betas.drop_last(), m)) by {
            assert forall|i: int| 0 <= i < f0.len() implies {
                &&& (#[trigger] f0[i]).admitted == f1[i].admitted
                &&& betas.drop_last()[i] < m
                &&& is_vidpf_pair(
                    f0[i].key,
                    f1[i].key,
                    alphas.drop_last()[i],
                    betas.drop_last()[i],
                    m,
                )
            } by {
                assert(e0[i].admitted == e1[i].admitted);
            }
        }
        assert forall|i: int| 0 <= i < alphas.drop_last().len() implies p.len() <= (
        #[trigger] alphas.drop_last()[i]).len() by {
            assert(alphas.drop_last()[i] == alphas[i]);
        }
        lemma_counts_reconstruct(f0, f1, alphas.drop_last(), betas.drop_last(), m, p);
        assert(flags(f0) =~= flags(e0).drop_last());
        let before = client_count(flags(f0), alphas.drop_last(), betas.drop_last(), p);
        let s0 = share_sum(f0, p, m);
        let s1 = share_sum(f1, p, m);
        assert(share_sum(e0, p, m) == add_share(p, m)(s0, e0.last()));
        assert(share_sum(e1, p, m) == add_share(p, m)(s1, e1.last()));
        assert(e0[n].admitted == e1[n].admitted);
        if e0[n].admitted {
            let x0 = share_at(e0[n].key.key, p, m);
            let x1 = share_at(e1[n].key.key, p, m);
            let v: nat = if on_path(alphas[n], p) {
                betas[n]
            } else {
                0
            };
            assert(is_vidpf_pair(e0[n].key, e1[n].key, alphas[n], betas[n], m));
            lemma_vidpf_pair_is_key_pair(e0[n].key, e1[n].key, alphas[n], betas[n], m);
            lemma_shares_recombine(e0[n].key.key, e1[n].key.key, alphas[n], betas[n], m, p);
            assert(add_mod(x0, x1, m) == v);
            lemma_add_mod_noop(s0 as int + x0 as int, s1 as int + x1 as int, mi);
            lemma_add_mod_noop(s0 as int + s1 as int, x0 as int + x1 as int, mi);
            lemma_add_mod_noop(before as int, v as int, mi);
            vstd::arithmetic::div_mod::lemma_small_mod(v, m);
            assert((s0 as int + x0 as int) + (s1 as int + x1 as int) == (s0 as int + s1 as int)
                + (x0 as int + x1 as int));
        }
    }
}

/// Fewer clients lie on a longer path: the number for a child never exceeds
/// the number for its parent.
pub proof fn lemma_client_count_monotone(
    admitted: Seq<bool>,
    alphas: Seq<Seq<bool>>,
    betas: Seq<nat>,
    p: Seq<bool>,
    bit: bool,
)
    ensures
        client_count(admitted, alphas, betas, p.push(bit)) <= client_count(
            admitted,
            alphas,
            betas,
            p,
        ),
    decreases alphas.len(),
{
    if alphas.len() > 0 {
        lemma_client_count_monotone(
            admitted.drop_last(),
            alphas.drop_last(),
            betas.drop_last(),
            p,
            bit,
        );
        let a = alphas.last();
        if on_path(a, p.push(bit)) {
            assert(p =~= a.take(p.len() as int)) by {
                assert(p.push(bit).take(p.len() as int) =~= p);
                assert(a.take(p.len() as int + 1).take(p.len() as int) =~= a.take(p.len() as int));
            }
        }
    }
}

/// Counts fall along the tree: with honest keys, and as long as the number
/// for the parent is below the order of the group, the count that the servers
/// reconstruct for a child never exceeds the count of its parent.
pub proof fn lemma_child_count_bounded(
    e0: Seq<Entry>,
    e1: Seq<Entry>,
    alphas: Seq<Seq<bool>>,
    betas: Seq<nat>,
    m: nat,
    p: Seq<bool>,
    bit: bool,
)
    requires
        m > 0,
        honest_keys(e0, e1, alphas, betas, m),
        p.len() >= 1,
        forall|i: int| 0 <= i < alphas.len() ==> p.len() + 1 <= (#[trigger] alphas[i]).len(),
        client_count(flags(e0), alphas, betas, p) < m,
    ensures
        count_at(e0, e1, p.push(bit), m) <= count_at(e0, e1, p, m),
{
    lemma_counts_reconstruct(e0, e1, alphas, betas, m, p);
    lemma_counts_reconstruct(e0, e1, alphas, betas, m, p.push(bit));
    lemma_client_count_monotone(flags(e0), alphas, betas, p, bit);
    vstd::arithmetic::div_mod::lemma_small_mod(client_count(flags(e0), alphas, betas, p), m);
    vstd::arithmetic::div_mod::lemma_small_mod(
        client_count(flags(e0), alphas, betas, p.push(bit)),
        m,
    );
}

/// The two keys of a generated pair keep their hash chains equal over any
/// list of nodes of the tree.
pub proof fn lemma_chains_agree(
    k0: VidpfModel,
    k1: VidpfModel,
    alpha: Seq<bool>,
    beta: nat,
    m: nat,
    paths: Seq<Seq<bool>>,
    c: Seq<u8>,
)
    requires
        is_vidpf_pair(k0, k1, alpha, beta, m),
        forall|j: int| 0 <= j < paths.len() ==> 1 <= (#[trigger] paths[j]).len() <= alpha.len(),
    ensures
        chain_over(k0, paths, c) == chain_over(k1, paths, c),
    decreases paths.len(),
{
    if paths.len() > 0 {
        assert forall|j: int| 0 <= j < paths.drop_last().len() implies 1 <= (
        #[trigger] paths.drop_last()[j]).len() <= alpha.len() by {
            assert(paths.drop_last()[j] == paths[j]);
        }
        lemma_chains_agree(k0, k1, alpha, beta, m, paths.drop_last(), c);
        lemma_proofs_agree(k0, k1, alpha, beta, m, paths.last());
    }
}

/// With honest keys the two servers compute the same digest for every node
/// of the tree.
pub proof fn lemma_digests_agree(
    e0: Seq<Entry>,
    e1: Seq<Entry>,
    alphas: Seq<Seq<bool>>,
    betas: Seq<nat>,
    m: nat,
    path: Seq<bool>,
    start: Seq<u8>,
)
    requires
        honest_keys(e0, e1, alphas, betas, m),
        path.len() >= 1,
        forall|i: int| 0 <= i < alphas.len() ==> path.len() <= (#[trigger] alphas[i]).len(),
    ensures
        entry_digest(e0, path, start) == entry_digest(e1, path, start),
    decreases e0.len(),
{
    if e0.len() > 0 {
        let n = e0.len() - 1;
        let f0 = e0.drop_last();
        let f1 = e1.drop_last();
        assert(honest_keys(f0, f1, alphas.drop_last(), betas.drop_last(), m)) by {
            assert forall|i: int| 0 <= i < f0.len() implies {
                &&& (#[trigger] f0[i]).admitted == f1[i].admitted
                &&& betas.drop_last()[i] < m
                &&& is_vidpf_pair(
                    f0[i].key,
                    f1[i].key,
                    alphas.drop_last()[i],
                    betas.drop_last()[i],
                    m,
                )
            } by {
                assert(e0[i].admitted == e1[i].admitted);
            }
        }
        assert forall|i: int| 0 <= i < alphas.drop_last().len() implies path.len() <= (
        #[trigger] alphas.drop_last()[i]).len() by {
            assert(alphas.drop_last()[i] == alphas[i]);
        }
        lemma_digests_agree(f0, f1, alphas.drop_last(), betas.drop_last(), m, path, start);
        assert(entry_digest(e0, path, start) == add_proof(path)(
            entry_digest(f0, path, start),
            e0.last(),
        ));
        assert(entry_digest(e1, path, start) == add_proof(path)(
            entry_digest(f1, path, start),
            e1.last(),
        ));
        assert(e0[n].admitted == e1[n].admitted);
        assert(is_vidpf_pair(e0[n].key, e1[n].key, alphas[n], betas[n], m));
        lemma_proofs_agree(e0[n].key, e1[n].key, alphas[n], betas[n], m, path);
    }
}

/// The number for a path never exceeds the number for any of its prefixes.
pub proof fn lemma_client_count_prefix(
    admitted: Seq<bool>,
    alphas: Seq<Seq<bool>>,
    betas: Seq<nat>,
    q: Seq<bool>,
    k: int,
)
    requires
        0 <= k <= q.len(),
    ensures
        client_count(admitted, alphas, betas, q) <= client_count(
            admitted,
            alphas,
            betas,
            q.take(k),
        ),
    decreases q.len() - k,
{
    if k == q.len() {
        assert(q.take(k) =~= q);
    } else {
        lemma_client_count_prefix(admitted, alphas, betas, q, k + 1);
        lemma_client_count_monotone(admitted, alphas, betas, q.take(k), q[k]);
        assert(q.take(k).push(q[k]) =~= q.take(k + 1));
    }
}

/// The protocol finds exactly the heavy hitters. With honest keys for points
/// of `bits` bits, and a sum of all admitted payloads below the order of the
/// group, a path survives all rounds if and only if it has `bits` bits and the
/// admitted clients on it have put in at least the threshold; and the count
/// that the servers reconstruct for it is what those clients have put in.
pub proof fn lemma_heavy_hitters_exact(
    e0: Seq<Entry>,
    e1: Seq<Entry>,
    alphas: Seq<Seq<bool>>,
    betas: Seq<nat>,
    threshold: nat,
    m: nat,
    bits: nat,
    q: Seq<bool>,
)
    requires
        m > 0,
        bits >= 1,
        honest_keys(e0, e1, alphas, betas, m),
        forall|i: int| 0 <= i < alphas.len() ==> (#[trigger] alphas[i]).len() == bits,
        client_count(flags(e0), alphas, betas, Seq::<bool>::empty()) < m,
    ensures
        survivors(e0, e1, threshold, m, bits).contains(q) <==> q.len() == bits && client_count(
            flags(e0),
            alphas,
            betas,
            q,
        ) >= threshold,
        q.len() == bits ==> count_at(e0, e1, q, m) == client_count(flags(e0), alphas, betas, q),
{
    let adm = flags(e0);
    lemma_survivors_are_heavy(e0, e1, threshold, m, bits, q);
    if q.len() == bits {
        assert forall|k: int| 1 <= k <= bits implies count_at(e0, e1, #[trigger] q.take(k), m)
            == client_count(adm, alphas, betas, q.take(k)) && client_count(
            adm,
            alphas,
            betas,
            q.take(k),
        ) >= client_count(adm, alphas, betas, q) by {
            let p = q.take(k);
            lemma_counts_reconstruct(e0, e1, alphas, betas, m, p);
            lemma_client_count_prefix(adm, alphas, betas, p, 0);
            assert(p.take(0) =~= Seq::<bool>::empty());
            lemma_client_count_prefix(adm, alphas, betas, q, k);
            vstd::arithmetic::div_mod::lemma_small_mod(client_count(adm, alphas, betas, p), m);
        }
        assert(q.take(bits as int) =~= q);
    }
}

/// With honest keys the two servers keep the hash chains of every key equal
/// over any list of nodes of the tree, if the chains start equal.
pub proof fn lemma_honest_chains_agree(
    e0: Seq<Entry>,
    e1: Seq<Entry>,
    alphas: Seq<Seq<bool>>,
    betas: Seq<nat>,
    m: nat,
    paths: Seq<Seq<bool>>,
    c: Seq<Seq<u8>>,
)
    requires
        honest_keys(e0, e1, alphas, betas, m),
        c.len() == e0.len(),
        forall|j: int, i: int|
            0 <= j < paths.len() && 0 <= i < alphas.len() ==> 1 <= (#[trigger] paths[j]).len() <= (
            #[trigger] alphas[i]).len(),
    ensures
        chains_over(e0, paths, c) == chains_over(e1, paths, c),
{
    assert forall|i: int| 0 <= i < c.len() implies chain_over(e0[i].key, paths, c[i])
        == chain_over(e1[i].key, paths, c[i]) by {
        assert(e0[i].admitted == e1[i].admitted);
        assert forall|j: int| 0 <= j < paths.len() implies 1 <= (#[trigger] paths[j]).len()
            <= alphas[i].len() by {
            assert(1 <= paths[j].len() <= alphas[i].len());
        }
        lemma_chains_agree(e0[i].key, e1[i].key, alphas[i], betas[i], m, paths, c[i]);
    }
    assert(chains_over(e0, paths, c) =~= chains_over(e1, paths, c));
}

/// A run with honest keys flags no key: if the two servers hold, key by key,
/// the two halves of honestly generated pairs for points of `bits` bits, and
/// their hash chains start equal, then the chains are equal after the last
/// level, and their comparison finds no mismatch.
pub proof fn lemma_honest_run_flags_nobody(
    e0: Seq<Entry>,
    e1: Seq<Entry>,
    alphas: Seq<Seq<bool>>,
    betas: Seq<nat>,
    threshold: nat,
    m: nat,
    bits: nat,
    c: Seq<Seq<u8>>,
)
    requires
        bits >= 1,
        honest_keys(e0, e1, alphas, betas, m),
        c.len() == e0.len(),
        forall|i: int| 0 <= i < alphas.len() ==> (#[trigger] alphas[i]).len() == bits,
    ensures
        ({
            let nodes = last_level(e0, e1, threshold, m, bits);
            &&& chains_over(e0, nodes, c) == chains_over(e1, nodes, c)
            &&& mismatches(chains_over(e0, nodes, c), chains_over(e1, nodes, c), c.len()).len()
                == 0
        }),
{
    let before = survivors(e0, e1, threshold, m, (bits - 1) as nat);
    let nodes = last_level(e0, e1, threshold, m, bits);
    assert forall|j: int, i: int| 0 <= j < nodes.len() && 0 <= i < alphas.len() implies 1 <= (
    #[trigger] nodes[j]).len() <= (#[trigger] alphas[i]).len() by {
        let q = nodes[j];
        assert(nodes.contains(q));
        lemma_children_member(before, q);
        lemma_survivors_are_heavy(e0, e1, threshold, m, (bits - 1) as nat, q.drop_last());
    }
    lemma_honest_chains_agree(e0, e1, alphas, betas, m, nodes, c);
    lemma_no_mismatch(chains_over(e0, nodes, c), chains_over(e1, nodes, c), c.len());
}

} // verus!
