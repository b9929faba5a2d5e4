//! The prefix-tree aggregation engine of one server.
//!
//! A [`KeyCollection`] holds the keys that clients gave to one server and
//! walks the binary tree of prefixes level by level. Its frontier is the flat
//! list of the prefixes that are still alive. A crawl replaces every prefix of
//! the frontier by its two children and sums, for every child, the shares of
//! all admitted keys; the two servers add their sums to the public count of
//! the prefix, keep the prefixes whose count reaches the threshold, and prune
//! the others.
//!
//! The contracts speak of the model of a collection: its entries
//! ([`KeyCollection::entries`]), the paths of its frontier
//! ([`KeyCollection::paths`]) and the hash chain of every key
//! ([`KeyCollection::chains`]).

use vstd::prelude::*;
use crate::dpf::{share_at, state_at, EvalState};
use crate::group::{add_mod, Group};
use crate::prg::{chain_hash, hash_pair, proof_hash, PrgSeed};
use crate::vidpf::{initial_hash, initial_hash_spec, proof_at, VIDPFKey, VidpfModel};

verus! {

/// Model of a key in a collection: the key, and whether it is still admitted
/// to the aggregation.
pub struct Entry {
    pub admitted: bool,
    pub key: VidpfModel,
}

/// Adds the share of an entry at `path` to a sum, if the entry is admitted.
pub open spec fn add_share(path: Seq<bool>, m: nat) -> spec_fn(nat, Entry) -> nat {
    |acc: nat, e: Entry|
        if e.admitted {
            add_mod(acc, share_at(e.key.key, path, m), m)
        } else {
            acc
        }
}

/// The sum of the shares at `path` of all admitted entries: this server's
/// share of the count of `path`.
pub open spec fn share_sum(entries: Seq<Entry>, path: Seq<bool>, m: nat) -> nat {
    entries.fold_left(0nat, add_share(path, m))
}

/// The share sums of a list of paths.
pub open spec fn counts_at(entries: Seq<Entry>, paths: Seq<Seq<bool>>, m: nat) -> Seq<nat> {
    Seq::new(paths.len(), |j: int| share_sum(entries, paths[j], m))
}

/// Folds the verification material of an entry at `path` into a digest, if
/// the entry is admitted.
pub open spec fn add_proof(path: Seq<bool>) -> spec_fn(Seq<u8>, Entry) -> Seq<u8> {
    |acc: Seq<u8>, e: Entry|
        if e.admitted {
            chain_hash(acc, proof_at(e.key, path))
        } else {
            acc
        }
}

/// The digest of the verification material at `path` of all admitted
/// entries, in the order of the entries, on top of `start`.
pub open spec fn entry_digest(entries: Seq<Entry>, path: Seq<bool>, start: Seq<u8>) -> Seq<u8> {
    entries.fold_left(start, add_proof(path))
}

/// The digests of a list of paths.
pub open spec fn digests_at(entries: Seq<Entry>, paths: Seq<Seq<bool>>, start: Seq<u8>) -> Seq<
    Seq<u8>,
> {
    Seq::new(paths.len(), |j: int| entry_digest(entries, paths[j], start))
}

/// The frontier after a crawl of one level: the two children of every path,
/// the left child first.
pub open spec fn children(paths: Seq<Seq<bool>>) -> Seq<Seq<bool>> {
    Seq::new(2 * paths.len(), |j: int| paths[j / 2].push(j % 2 == 1))
}

/// The frontier after a crawl of `d` levels.
pub open spec fn descend(paths: Seq<Seq<bool>>, d: nat) -> Seq<Seq<bool>>
    decreases d,
{
    if d == 0 {
        paths
    } else {
        children(descend(paths, (d - 1) as nat))
    }
}

/// The hash chain of the key `vk` that stands at `c`, after it has taken in
/// the nodes of `paths` in their order.
pub open spec fn chain_over(vk: VidpfModel, paths: Seq<Seq<bool>>, c: Seq<u8>) -> Seq<u8>
    decreases paths.len(),
{
    if paths.len() == 0 {
        c
    } else {
        chain_hash(chain_over(vk, paths.drop_last(), c), proof_at(vk, paths.last()))
    }
}

/// A chain over a list of at least two nodes takes in the last two nodes
/// after all the others.
pub proof fn lemma_chain_over_two(vk: VidpfModel, paths: Seq<Seq<bool>>, c: Seq<u8>)
    requires
        paths.len() >= 2,
    ensures
        chain_over(vk, paths, c) == chain_hash(
            chain_hash(
                chain_over(vk, paths.drop_last().drop_last(), c),
                proof_at(vk, paths.drop_last().last()),
            ),
            proof_at(vk, paths.last()),
        ),
{
    assert(chain_over(vk, paths, c) == chain_hash(
        chain_over(vk, paths.drop_last(), c),
        proof_at(vk, paths.last()),
    ));
}

/// The hash chain of the key `vk` after a verified crawl of `d` levels that
/// starts from the frontier `paths`: it takes in the whole frontier of every
/// level that the crawl reaches.
pub open spec fn chain_descend(vk: VidpfModel, paths: Seq<Seq<bool>>, d: nat, c: Seq<u8>) -> Seq<u8>
    decreases d,
{
    if d == 0 {
        c
    } else {
        chain_over(vk, descend(paths, d), chain_descend(vk, paths, (d - 1) as nat, c))
    }
}

/// The paths that a pruning keeps: those whose flag is set, in their order.
pub open spec fn retain(paths: Seq<Seq<bool>>, keep: Seq<bool>) -> Seq<Seq<bool>>
    decreases paths.len(),
{
    if paths.len() == 0 {
        paths
    } else {
        let rest = retain(paths.drop_last(), keep.drop_last());
        if keep.last() {
            rest.push(paths.last())
        } else {
            rest
        }
    }
}

/// The entries after the keys at the indices in `excluded` have lost their
/// admission. Indices beyond the entries are ignored.
pub open spec fn exclude(entries: Seq<Entry>, excluded: Seq<usize>) -> Seq<Entry> {
    Seq::new(
        entries.len(),
        |i: int|
            Entry {
                admitted: entries[i].admitted && !excluded.contains(i as usize),
                key: entries[i].key,
            },
    )
}

/// The indices below `n` of the entries that are admitted and occur in
/// `excluded`, in ascending order.
pub open spec fn newly_excluded(entries: Seq<Entry>, excluded: Seq<usize>, n: nat) -> Seq<usize>
    decreases n,
{
    if n == 0 {
        Seq::empty()
    } else {
        let rest = newly_excluded(entries, excluded, (n - 1) as nat);
        if entries[n - 1].admitted && excluded.contains((n - 1) as usize) {
            rest.push((n - 1) as usize)
        } else {
            rest
        }
    }
}

/// A crawl of one level replaces every path by its two children.
pub proof fn lemma_descend_one(paths: Seq<Seq<bool>>)
    ensures
        descend(paths, 1) == children(paths),
        descend(paths, 0) == paths,
{
    assert(descend(paths, 1) == children(descend(paths, 0)));
}

/// The newly excluded indices are exactly the indices below `n` of the
/// admitted entries that occur in `excluded`, and they ascend.
pub proof fn lemma_newly_excluded(entries: Seq<Entry>, excluded: Seq<usize>, n: nat)
    requires
        n <= entries.len(),
        n <= usize::MAX,
    ensures
        ({
            let newly = newly_excluded(entries, excluded, n);
            &&& forall|i: usize| #[trigger]
                newly.contains(i) <==> i < n && entries[i as int].admitted && excluded.contains(i)
            &&& forall|a: int, b: int|
                0 <= a < b < newly.len() ==> #[trigger] newly[a] < #[trigger] newly[b]
            &&& excluded.len() == 0 ==> newly.len() == 0
        }),
    decreases n,
{
    let now = newly_excluded(entries, excluded, n);
    if n > 0 {
        let rest = newly_excluded(entries, excluded, (n - 1) as nat);
        lemma_newly_excluded(entries, excluded, (n - 1) as nat);
        let last = (n - 1) as usize;
        let takes = entries[n - 1].admitted && excluded.contains(last);
        assert(now == if takes {
            rest.push(last)
        } else {
            rest
        });
        assert forall|i: usize| #[trigger]
            now.contains(i) <==> i < n && entries[i as int].admitted && excluded.contains(
                i,
            ) by {
            if now.contains(i) {
                let k = choose|k: int| 0 <= k < now.len() && now[k] == i;
                if takes && k == rest.len() {
                    assert(i == last);
                } else {
                    assert(rest[k] == i);
                    assert(rest.contains(i));
                }
            }
            if i < n && entries[i as int].admitted && excluded.contains(i) {
                if i == last {
                    assert(now[rest.len() as int] == i);
                } else {
                    assert(rest.contains(i));
                    let k = choose|k: int| 0 <= k < rest.len() && rest[k] == i;
                    assert(now[k] == i);
                }
            }
        }
        assert forall|a: int, b: int| 0 <= a < b < now.len() implies #[trigger] now[a]
            < #[trigger] now[b] by {
            if b < rest.len() {
                assert(rest[a] < rest[b]);
            } else {
                let x = rest[a];
                assert(rest.contains(x));
                assert(x < n - 1);
                assert(now[b] == last);
            }
        }
    }
}

/// The decisions of a pruning round: a path is kept if and only if the sum
/// of the two servers' shares of its count reaches the threshold.
pub open spec fn keep_spec(threshold: nat, c0: Seq<nat>, c1: Seq<nat>, m: nat) -> Seq<bool> {
    Seq::new(c0.len(), |j: int| add_mod(c0[j], c1[j], m) >= threshold)
}

/// The value at which the hash chains of a session with the seed `seed`
/// start.
pub open spec fn session_hash(seed: Seq<u8>) -> Seq<u8> {
    chain_hash(initial_hash_spec(), proof_hash(seed))
}

/// The hash chains `chains` of the keys of `entries`, after each has taken in
/// the nodes of `paths`.
pub open spec fn chains_over(entries: Seq<Entry>, paths: Seq<Seq<bool>>, chains: Seq<Seq<u8>>)
    -> Seq<Seq<u8>> {
    Seq::new(chains.len(), |i: int| chain_over(entries[i].key, paths, chains[i]))
}

/// The hash chains `chains` of the keys of `entries`, after a verified crawl
/// of `d` levels that starts from the frontier `paths`.
pub open spec fn chains_descend(
    entries: Seq<Entry>,
    paths: Seq<Seq<bool>>,
    d: nat,
    chains: Seq<Seq<u8>>,
) -> Seq<Seq<u8>> {
    Seq::new(chains.len(), |i: int| chain_descend(entries[i].key, paths, d, chains[i]))
}

/// The paths of a frontier, each with this server's share of its count.
pub open spec fn shares_at(entries: Seq<Entry>, paths: Seq<Seq<bool>>, m: nat) -> Seq<
    (Seq<bool>, nat),
> {
    Seq::new(paths.len(), |j: int| (paths[j], share_sum(entries, paths[j], m)))
}

/// The entries that a list of keys and their admission flags stand for.
pub open spec fn entries_of<T: Group>(keys: Seq<VIDPFKey<T>>, admitted: Seq<bool>) -> Seq<Entry> {
    Seq::new(keys.len(), |i: int| Entry { admitted: admitted[i], key: keys[i]@ })
}

/// The residues of a list of group elements.
pub open spec fn vals<T: Group>(v: Seq<T>) -> Seq<nat> {
    Seq::new(v.len(), |j: int| v[j].val())
}

/// Whether every element of a list is a valid group element.
pub open spec fn all_wf<T: Group>(v: Seq<T>) -> bool {
    forall|j: int| 0 <= j < v.len() ==> (#[trigger] v[j]).wf()
}

/// The bytes of a list of hash values.
pub open spec fn hashes(v: Seq<[u8; 32]>) -> Seq<Seq<u8>> {
    Seq::new(v.len(), |j: int| v[j]@)
}

/// A prefix with a value: a share of its count, or its count.
#[derive(Debug)]
pub struct HeavyHitter<T> {
    pub path: Vec<bool>,
    pub value: T,
}

/// Whether every value of a list of prefixes is a valid group element.
pub open spec fn values_wf<T: Group>(res: Seq<HeavyHitter<T>>) -> bool {
    forall|j: int| 0 <= j < res.len() ==> (#[trigger] res[j]).value.wf()
}

/// Whether two lists hold the same paths in the same order.
pub open spec fn same_paths<T>(res0: Seq<HeavyHitter<T>>, res1: Seq<HeavyHitter<T>>) -> bool {
    &&& res0.len() == res1.len()
    &&& forall|j: int| 0 <= j < res0.len() ==> (#[trigger] res0[j]).path@ == res1[j].path@
}

/// Model of a list of prefixes with values: each path with the residue of
/// its value.
pub open spec fn hitters<T: Group>(res: Seq<HeavyHitter<T>>) -> Seq<(Seq<bool>, nat)> {
    Seq::new(res.len(), |j: int| (res[j].path@, res[j].value.val()))
}

/// The paths of `a`, each with the sum of its values in `a` and in `b`.
pub open spec fn sum_hitters(a: Seq<(Seq<bool>, nat)>, b: Seq<(Seq<bool>, nat)>, m: nat) -> Seq<
    (Seq<bool>, nat),
> {
    Seq::new(a.len(), |j: int| (a[j].0, add_mod(a[j].1, b[j].1, m)))
}

/// A prefix of the frontier with, for every key of the collection, the state
/// of the key's evaluation at the prefix and the key's share there.
struct TreeNode<T> {
    path: Vec<bool>,
    key_states: Vec<EvalState>,
    key_values: Vec<T>,
}

/// The keys of one server and the state of its walk through the prefix tree.
pub struct KeyCollection<T> {
    server_id: i8,
    depth: usize,
    seed: PrgSeed,
    keys: Vec<VIDPFKey<T>>,
    admitted: Vec<bool>,
    chains: Vec<[u8; 32]>,
    frontier: Vec<TreeNode<T>>,
    level: usize,
    started: bool,
}

impl<T: Group> TreeNode<T> {
    /// Whether the node holds, for every one of `keys`, the state and the
    /// share of the key at the node's path.
    spec fn matches(&self, keys: Seq<VIDPFKey<T>>) -> bool {
        &&& self.key_states@.len() == keys.len()
        &&& self.key_values@.len() == keys.len()
        &&& forall|i: int|
            0 <= i < keys.len() ==> {
                &&& (#[trigger] self.key_states@[i]).level == self.path@.len()
                &&& self.key_states@[i]@ == state_at(keys[i]@.key, self.path@)
            }
        &&& forall|i: int|
            0 <= i < keys.len() ==> {
                &&& (#[trigger] self.key_values@[i]).wf()
                &&& self.key_values@[i].val() == share_at(keys[i]@.key, self.path@, T::modulus())
            }
    }
}

impl<T: Group> KeyCollection<T> {
    /// The keys of the collection with their admission, in the order in which
    /// they were added.
    pub closed spec fn entries(&self) -> Seq<Entry> {
        entries_of(self.keys@, self.admitted@)
    }

    /// The paths of the frontier, in its order.
    pub closed spec fn paths(&self) -> Seq<Seq<bool>> {
        Seq::new(self.frontier@.len(), |j: int| self.frontier@[j].path@)
    }

    /// The hash chain of every key, in the order of the keys.
    pub closed spec fn chains(&self) -> Seq<Seq<u8>> {
        hashes(self.chains@)
    }

    /// The number of bits that every path of the frontier has.
    pub closed spec fn level(&self) -> nat {
        self.level as nat
    }

    /// The number of bits of the domain.
    pub closed spec fn domain_bits(&self) -> nat {
        self.depth as nat
    }

    /// Whether the walk through the tree has begun.
    pub closed spec fn started(&self) -> bool {
        self.started
    }

    /// The identifier of the server.
    pub closed spec fn server(&self) -> i8 {
        self.server_id
    }

    /// The seed of the session.
    pub closed spec fn session(&self) -> Seq<u8> {
        self.seed@
    }

    /// The invariant of a collection.
    pub closed spec fn wf(&self) -> bool {
        &&& self.admitted@.len() == self.keys@.len()
        &&& self.chains@.len() == self.keys@.len()
        &&& self.level <= self.depth
        &&& forall|i: int|
            0 <= i < self.keys@.len() ==> (#[trigger] self.keys@[i]).wf()
                && self.keys@[i].key.cor_words@.len() == self.depth
        &&& forall|j: int|
            0 <= j < self.frontier@.len() ==> (#[trigger] self.frontier@[j]).matches(self.keys@)
                && self.frontier@[j].path@.len() == self.level
        &&& !self.started ==> self.frontier@.len() == 0 && self.level == 0
    }

    /// Every path of the frontier has as many bits as the level says, and
    /// there is one entry and one hash chain for every key.
    pub proof fn lemma_shape(&self)
        requires
            self.wf(),
        ensures
            self.chains().len() == self.entries().len(),
            self.level() <= self.domain_bits(),
            forall|j: int|
                0 <= j < self.paths().len() ==> (#[trigger] self.paths()[j]).len() == self.level(),
            !self.started() ==> self.paths().len() == 0 && self.level() == 0,
    {
    }

    /// A collection for the server `server_id` in the session with the seed
    /// `seed`, for a domain of `depth` bits. It has no key and no frontier.
    pub fn new(server_id: i8, seed: &PrgSeed, depth: usize) -> (col: Self)
        ensures
            col.wf(),
            !col.started(),
            col.server() == server_id,
            col.session() == seed@,
            col.domain_bits() == depth,
            col.level() == 0,
            col.entries() == Seq::<Entry>::empty(),
            col.paths() == Seq::<Seq<bool>>::empty(),
            col.chains() == Seq::<Seq<u8>>::empty(),
    {
        let col = KeyCollection {
            server_id,
            depth,
            seed: *seed,
            keys: Vec::new(),
            admitted: Vec::new(),
            chains: Vec::new(),
            frontier: Vec::new(),
            level: 0,
            started: false,
        };
        assert(col.entries() =~= Seq::<Entry>::empty());
        assert(col.paths() =~= Seq::<Seq<bool>>::empty());
        assert(col.chains() =~= Seq::<Seq<u8>>::empty());
        col
    }

    /// The identifier of the server.
    pub fn server_id(&self) -> (id: i8)
        ensures
            id == self.server(),
    {
        self.server_id
    }

    /// The number of bits of the domain.
    pub fn depth(&self) -> (d: usize)
        ensures
            d == self.domain_bits(),
    {
        self.depth
    }

    /// The number of keys of the collection.
    pub fn num_keys(&self) -> (n: usize)
        ensures
            n == self.entries().len(),
    {
        self.keys.len()
    }

    /// The number of paths of the frontier.
    pub fn frontier_len(&self) -> (n: usize)
        ensures
            n == self.paths().len(),
    {
        self.frontier.len()
    }

    /// The hash chain of every key, in the order of the keys. The two servers
    /// compare their chains key by key to find the keys that were not
    /// generated honestly.
    pub fn key_chains(&self) -> (out: Vec<[u8; 32]>)
        ensures
            hashes(out@) == self.chains(),
    {
        let mut out: Vec<[u8; 32]> = Vec::new();
        let mut i: usize = 0;
        while i < self.chains.len()
            invariant
                i <= self.chains@.len(),
                out@ == self.chains@.take(i as int),
            decreases self.chains@.len() - i,
        {
            out.push(self.chains[i]);
            assert(self.chains@.take(i as int).push(self.chains@[i as int]) =~= self.chains@.take(
                i + 1,
            ));
            i += 1;
        }
        assert(self.chains@.take(i as int) =~= self.chains@);
        out
    }

    /// The value at which the hash chains of this session start.
    fn session_start(&self) -> (pi: [u8; 32])
        ensures
            pi@ == session_hash(self.seed@),
    {
        let start = initial_hash();
        let item = self.seed.node_proof();
        hash_pair(&start, &item)
    }

    /// Adds a client's key. The key is admitted, and its hash chain starts at
    /// the session's initial value. Nothing of the key's content is checked.
    pub fn add_key(&mut self, key: VIDPFKey<T>)
        requires
            old(self).wf(),
            !old(self).started(),
            key.wf(),
            key@.key.cws.len() == old(self).domain_bits(),
        ensures
            final(self).wf(),
            !final(self).started(),
            final(self).server() == old(self).server(),
            final(self).session() == old(self).session(),
            final(self).domain_bits() == old(self).domain_bits(),
            final(self).level() == 0,
            final(self).paths() == old(self).paths(),
            final(self).entries() == old(self).entries().push(Entry { admitted: true, key: key@ }),
            final(self).chains() == old(self).chains().push(session_hash(old(self).session())),
    {
        let start = self.session_start();
        self.keys.push(key);
        self.admitted.push(true);
        self.chains.push(start);
        assert(self.entries() =~= old(self).entries().push(Entry { admitted: true, key: key@ }));
        assert(self.chains() =~= old(self).chains().push(session_hash(old(self).session())));
        assert(self.paths() =~= old(self).paths());
    }

    /// Begins the walk: the frontier becomes the root of the tree alone, the
    /// empty path. From here on no key can be added.
    pub fn tree_init(&mut self)
        requires
            old(self).wf(),
            !old(self).started(),
        ensures
            final(self).wf(),
            final(self).started(),
            final(self).server() == old(self).server(),
            final(self).session() == old(self).session(),
            final(self).domain_bits() == old(self).domain_bits(),
            final(self).entries() == old(self).entries(),
            final(self).chains() == old(self).chains(),
            final(self).level() == 0,
            final(self).paths() == seq![Seq::<bool>::empty()],
    {
        let mut key_states: Vec<EvalState> = Vec::new();
        let mut key_values: Vec<T> = Vec::new();
        let mut i: usize = 0;
        while i < self.keys.len()
            invariant
                i <= self.keys@.len(),
                key_states@.len() == i,
                key_values@.len() == i,
                forall|k: int|
                    0 <= k < i ==> {
                        &&& (#[trigger] key_states@[k]).level == 0
                        &&& key_states@[k]@ == state_at(self.keys@[k]@.key, Seq::<bool>::empty())
                    },
                forall|k: int|
                    0 <= k < i ==> {
                        &&& (#[trigger] key_values@[k]).wf()
                        &&& key_values@[k].val() == 0
                    },
            decreases self.keys@.len() - i,
        {
            key_states.push(self.keys[i].eval_init());
            key_values.push(T::zero());
            i += 1;
        }
        let root = TreeNode { path: Vec::new(), key_states, key_values };
        assert(root.path@ =~= Seq::<bool>::empty());
        let mut frontier: Vec<TreeNode<T>> = Vec::new();
        frontier.push(root);
        self.frontier = frontier;
        self.level = 0;
        self.started = true;
        assert(self.paths() =~= seq![Seq::<bool>::empty()]);
        assert(self.entries() =~= old(self).entries());
    }

    /// Decides for every path of a frontier whether it is kept: it is, if and
    /// only if the sum of the two servers' shares of its count reaches the
    /// threshold.
    pub fn keep_values(threshold: &T, vals0: &[T], vals1: &[T]) -> (keep: Vec<bool>)
        requires
            threshold.wf(),
            vals0@.len() == vals1@.len(),
            all_wf(vals0@),
            all_wf(vals1@),
        ensures
            keep@ == keep_spec(threshold.val(), vals(vals0@), vals(vals1@), T::modulus()),
    {
        let mut keep: Vec<bool> = Vec::new();
        let mut j: usize = 0;
        while j < vals0.len()
            invariant
                j <= vals0@.len(),
                vals0@.len() == vals1@.len(),
                threshold.wf(),
                all_wf(vals0@),
                all_wf(vals1@),
                keep@.len() == j,
                forall|k: int|
                    0 <= k < j ==> keep@[k] == (add_mod(
                        vals0@[k].val(),
                        vals1@[k].val(),
                        T::modulus(),
                    ) >= threshold.val()),
            decreases vals0@.len() - j,
        {
            let mut v = vals0[j];
            v.add(&vals1[j]);
            keep.push(v.at_least(threshold));
            j += 1;
        }
        assert(keep@ =~= keep_spec(threshold.val(), vals(vals0@), vals(vals1@), T::modulus()));
        keep
    }

    /// The public value of every surviving prefix: the sum of the two
    /// servers' shares of it.
    pub fn final_values(res0: &[HeavyHitter<T>], res1: &[HeavyHitter<T>]) -> (out: Vec<
        HeavyHitter<T>,
    >)
        requires
            values_wf(res0@),
            values_wf(res1@),
            same_paths(res0@, res1@),
        ensures
            values_wf(out@),
            hitters(out@) == sum_hitters(hitters(res0@), hitters(res1@), T::modulus()),
    {
        let mut out: Vec<HeavyHitter<T>> = Vec::new();
        let mut j: usize = 0;
        while j < res0.len()
            invariant
                j <= res0@.len(),
                res0@.len() == res1@.len(),
                values_wf(res0@),
                values_wf(res1@),
                out@.len() == j,
                values_wf(out@),
                forall|k: int|
                    0 <= k < j ==> {
                        &&& (#[trigger] out@[k]).path@ == res0@[k].path@
                        &&& out@[k].value.val() == add_mod(
                            res0@[k].value.val(),
                            res1@[k].value.val(),
                            T::modulus(),
                        )
                    },
            decreases res0@.len() - j,
        {
            let mut v = res0[j].value;
            v.add(&res1[j].value);
            out.push(HeavyHitter { path: copy_bits(&res0[j].path), value: v });
            j += 1;
        }
        assert(hitters(out@) =~= sum_hitters(hitters(res0@), hitters(res1@), T::modulus()));
        out
    }
}

/// A copy of a bit string.
fn copy_bits(src: &Vec<bool>) -> (out: Vec<bool>)
    ensures
        out@ == src@,
{
    let mut out: Vec<bool> = Vec::new();
    let mut i: usize = 0;
    while i < src.len()
        invariant
            i <= src@.len(),
            out@ == src@.take(i as int),
        decreases src@.len() - i,
    {
        out.push(src[i]);
        assert(src@.take(i as int).push(src@[i as int]) =~= src@.take(i + 1));
        i += 1;
    }
    assert(src@.take(i as int) =~= src@);
    out
}

/// Whether `list` holds `i`.
fn holds_index(list: &[usize], i: usize) -> (b: bool)
    ensures
        b == list@.contains(i),
{
    let mut k: usize = 0;
    while k < list.len()
        invariant
            k <= list@.len(),
            forall|j: int| 0 <= j < k ==> list@[j] != i,
        decreases list@.len() - k,
    {
        if list[k] == i {
            return true;
        }
        k += 1;
    }
    false
}

/// Makes the child of `parent` in direction `dir`: walks every key one bit
/// further. With `verify`, every key's hash chain takes in the key's
/// verification material at the child, and the result holds the digest of the
/// material of the admitted keys on top of `start`.
fn make_node<T: Group>(
    keys: &Vec<VIDPFKey<T>>,
    admitted: &Vec<bool>,
    chains: &mut Vec<[u8; 32]>,
    start: &[u8; 32],
    parent: &TreeNode<T>,
    dir: bool,
    verify: bool,
) -> (out: (TreeNode<T>, [u8; 32]))
    requires
        admitted@.len() == keys@.len(),
        old(chains)@.len() == keys@.len(),
        parent.matches(keys@),
        forall|i: int|
            0 <= i < keys@.len() ==> (#[trigger] keys@[i]).wf() && parent.path@.len()
                < keys@[i].key.cor_words@.len(),
    ensures
        out.0.matches(keys@),
        out.0.path@ == parent.path@.push(dir),
        final(chains)@.len() == keys@.len(),
        forall|i: int|
            0 <= i < keys@.len() ==> (#[trigger] final(chains)@[i])@ == if verify {
                chain_hash(old(chains)@[i]@, proof_at(keys@[i]@, parent.path@.push(dir)))
            } else {
                old(chains)@[i]@
            },
        verify ==> out.1@ == entry_digest(
            entries_of(keys@, admitted@),
            parent.path@.push(dir),
            start@,
        ),
{
    let mut path = copy_bits(&parent.path);
    path.push(dir);
    let ghost child = parent.path@.push(dir);
    let ghost entries = entries_of(keys@, admitted@);
    let ghost chains0 = chains@;
    let ghost m = T::modulus();
    let mut key_states: Vec<EvalState> = Vec::new();
    let mut key_values: Vec<T> = Vec::new();
    let mut digest: [u8; 32] = *start;
    let mut i: usize = 0;
    proof {
        assert(child.drop_last() =~= parent.path@);
        assert(entries.take(0) =~= Seq::<Entry>::empty());
    }
    while i < keys.len()
        invariant
            i <= keys@.len(),
            admitted@.len() == keys@.len(),
            chains@.len() == keys@.len(),
            chains0.len() == keys@.len(),
            parent.matches(keys@),
            forall|k: int|
                0 <= k < keys@.len() ==> (#[trigger] keys@[k]).wf() && parent.path@.len()
                    < keys@[k].key.cor_words@.len(),
            m == T::modulus(),
            child == parent.path@.push(dir),
            child.drop_last() == parent.path@,
            entries == entries_of(keys@, admitted@),
            key_states@.len() == i,
            key_values@.len() == i,
            forall|k: int|
                0 <= k < i ==> {
                    &&& (#[trigger] key_states@[k]).level == child.len()
                    &&& key_states@[k]@ == state_at(keys@[k]@.key, child)
                },
            forall|k: int|
                0 <= k < i ==> {
                    &&& (#[trigger] key_values@[k]).wf()
                    &&& key_values@[k].val() == share_at(keys@[k]@.key, child, m)
                },
            forall|k: int|
                0 <= k < i ==> (#[trigger] chains@[k])@ == if verify {
                    chain_hash(chains0[k]@, proof_at(keys@[k]@, child))
                } else {
                    chains0[k]@
                },
            forall|k: int| i <= k < keys@.len() ==> #[trigger] chains@[k] == chains0[k],
            verify ==> digest@ == entries.take(i as int).fold_left(start@, add_proof(child)),
        decreases keys@.len() - i,
    {
        let state = &parent.key_states[i];
        proof {
            assert(keys@[i as int].wf());
            assert(entries.take(i + 1).drop_last() =~= entries.take(i as int));
            assert(entries.take(i + 1).last() == entries[i as int]);
        }
        if verify {
            let (next, word, node) = keys[i].eval_bit(state, dir);
            let chained = hash_pair(&chains[i], &node);
            chains.set(i, chained);
            if admitted[i] {
                digest = hash_pair(&digest, &node);
            }
            key_states.push(next);
            key_values.push(word);
        } else {
            let (next, word) = keys[i].key.eval_bit(state, dir);
            key_states.push(next);
            key_values.push(word);
        }
        i += 1;
    }
    proof {
        assert(entries.take(i as int) =~= entries);
    }
    (TreeNode { path, key_states, key_values }, digest)
}

/// Makes both children of `parent`, the left one first. With `verify`, every
/// key's hash chain takes in the key's verification material at the left
/// child and then at the right one.
fn make_children<T: Group>(
    keys: &Vec<VIDPFKey<T>>,
    admitted: &Vec<bool>,
    chains: &mut Vec<[u8; 32]>,
    start: &[u8; 32],
    parent: &TreeNode<T>,
    verify: bool,
) -> (out: (TreeNode<T>, TreeNode<T>, [u8; 32], [u8; 32]))
    requires
        admitted@.len() == keys@.len(),
        old(chains)@.len() == keys@.len(),
        parent.matches(keys@),
        forall|i: int|
            0 <= i < keys@.len() ==> (#[trigger] keys@[i]).wf() && parent.path@.len()
                < keys@[i].key.cor_words@.len(),
    ensures
        out.0.matches(keys@),
        out.1.matches(keys@),
        out.0.path@ == parent.path@.push(false),
        out.1.path@ == parent.path@.push(true),
        final(chains)@.len() == keys@.len(),
        forall|i: int|
            0 <= i < keys@.len() ==> (#[trigger] final(chains)@[i])@ == if verify {
                chain_hash(
                    chain_hash(old(chains)@[i]@, proof_at(keys@[i]@, parent.path@.push(false))),
                    proof_at(keys@[i]@, parent.path@.push(true)),
                )
            } else {
                old(chains)@[i]@
            },
        verify ==> out.2@ == entry_digest(
            entries_of(keys@, admitted@),
            parent.path@.push(false),
            start@,
        ),
        verify ==> out.3@ == entry_digest(
            entries_of(keys@, admitted@),
            parent.path@.push(true),
            start@,
        ),
{
    let ghost before = chains@;
    let (left, left_digest) = make_node(keys, admitted, chains, start, parent, false, verify);
    let ghost between = chains@;
    let (right, right_digest) = make_node(keys, admitted, chains, start, parent, true, verify);
    proof {
        assert forall|i: int| 0 <= i < keys@.len() implies (#[trigger] chains@[i])@ == if verify {
            chain_hash(
                chain_hash(before[i]@, proof_at(keys@[i]@, parent.path@.push(false))),
                proof_at(keys@[i]@, parent.path@.push(true)),
            )
        } else {
            before[i]@
        } by {
            assert(between[i]@ == if verify {
                chain_hash(before[i]@, proof_at(keys@[i]@, parent.path@.push(false)))
            } else {
                before[i]@
            });
        }
    }
    (left, right, left_digest, right_digest)
}

impl<T: Group> KeyCollection<T> {
    /// Takes the admission from the keys at the indices in `excluded`, and
    /// tells which of them were admitted until now.
    fn apply_exclusions(&mut self, excluded: &[usize]) -> (newly: Vec<usize>)
        requires
            old(self).wf(),
        ensures
            final(self).wf(),
            final(self).started() == old(self).started(),
            final(self).server() == old(self).server(),
            final(self).session() == old(self).session(),
            final(self).domain_bits() == old(self).domain_bits(),
            final(self).level() == old(self).level(),
            final(self).paths() == old(self).paths(),
            final(self).chains() == old(self).chains(),
            final(self).entries() == exclude(old(self).entries(), excluded@),
            newly@ == newly_excluded(old(self).entries(), excluded@, old(self).entries().len()),
    {
        let ghost entries0 = self.entries();
        let mut newly: Vec<usize> = Vec::new();
        let mut i: usize = 0;
        while i < self.admitted.len()
            invariant
                i <= self.admitted@.len(),
                self.wf(),
                self.keys == old(self).keys,
                self.chains == old(self).chains,
                self.frontier == old(self).frontier,
                self.level == old(self).level,
                self.depth == old(self).depth,
                self.started == old(self).started,
                self.server_id == old(self).server_id,
                self.seed == old(self).seed,
                entries0 == old(self).entries(),
                entries0.len() == self.admitted@.len(),
                forall|k: int|
                    0 <= k < i ==> self.admitted@[k] == (entries0[k].admitted
                        && !excluded@.contains(k as usize)),
                forall|k: int|
                    i <= k < self.admitted@.len() ==> self.admitted@[k] == entries0[k].admitted,
                newly@ == newly_excluded(entries0, excluded@, i as nat),
            decreases self.admitted@.len() - i,
        {
            if self.admitted[i] && holds_index(excluded, i) {
                self.admitted.set(i, false);
                newly.push(i);
            }
            i += 1;
        }
        assert(self.entries() =~= exclude(entries0, excluded@));
        newly
    }

    /// This server's share of the count of every path of the frontier: the
    /// sum of the shares of the admitted keys.
    fn frontier_counts(&self) -> (counts: Vec<T>)
        requires
            self.wf(),
        ensures
            all_wf(counts@),
            counts@.len() == self.paths().len(),
            vals(counts@) == counts_at(self.entries(), self.paths(), T::modulus()),
    {
        let ghost m = T::modulus();
        let ghost entries = self.entries();
        let mut counts: Vec<T> = Vec::new();
        let mut j: usize = 0;
        while j < self.frontier.len()
            invariant
                j <= self.frontier@.len(),
                self.wf(),
                m == T::modulus(),
                entries == self.entries(),
                counts@.len() == j,
                forall|k: int|
                    0 <= k < j ==> (#[trigger] counts@[k]).wf() && counts@[k].val() == share_sum(
                        entries,
                        self.frontier@[k].path@,
                        m,
                    ),
            decreases self.frontier@.len() - j,
        {
            let node = &self.frontier[j];
            let ghost path = node.path@;
            let mut acc = T::zero();
            let mut i: usize = 0;
            proof {
                assert(node.matches(self.keys@));
                assert(entries.take(0) =~= Seq::<Entry>::empty());
            }
            while i < self.keys.len()
                invariant
                    i <= self.keys@.len(),
                    self.wf(),
                    node.matches(self.keys@),
                    path == node.path@,
                    m == T::modulus(),
                    entries == self.entries(),
                    acc.wf(),
                    acc.val() == entries.take(i as int).fold_left(0nat, add_share(path, m)),
                decreases self.keys@.len() - i,
            {
                proof {
                    assert(entries.take(i + 1).drop_last() =~= entries.take(i as int));
                    assert(entries.take(i + 1).last() == entries[i as int]);
                }
                if self.admitted[i] {
                    acc.add(&node.key_values[i]);
                }
                i += 1;
            }
            proof {
                assert(entries.take(i as int) =~= entries);
            }
            counts.push(acc);
            j += 1;
        }
        assert(vals(counts@) =~= counts_at(self.entries(), self.paths(), m));
        counts
    }

    /// Crawls one level: every path of the frontier is replaced by its two
    /// children. With `verify`, every key's hash chain takes in the nodes of
    /// the new frontier, and the result holds the digest of every new node.
    fn crawl_level(&mut self, verify: bool) -> (digests: Vec<[u8; 32]>)
        requires
            old(self).wf(),
            old(self).started(),
            old(self).level() < old(self).domain_bits(),
        ensures
            final(self).wf(),
            final(self).started(),
            final(self).server() == old(self).server(),
            final(self).session() == old(self).session(),
            final(self).domain_bits() == old(self).domain_bits(),
            final(self).entries() == old(self).entries(),
            final(self).level() == old(self).level() + 1,
            final(self).paths() == children(old(self).paths()),
            final(self).chains() == if verify {
                chains_over(final(self).entries(), final(self).paths(), old(self).chains())
            } else {
                old(self).chains()
            },
            hashes(digests@) == if verify {
                digests_at(
                    final(self).entries(),
                    final(self).paths(),
                    session_hash(final(self).session()),
                )
            } else {
                Seq::<Seq<u8>>::empty()
            },
    {
        let start = self.session_start();
        let ghost entries = self.entries();
        let ghost paths0 = self.paths();
        let ghost chains0 = self.chains();
        let ghost next_paths = children(paths0);
        let mut parents: Vec<TreeNode<T>> = Vec::new();
        core::mem::swap(&mut self.frontier, &mut parents);
        let mut next: Vec<TreeNode<T>> = Vec::new();
        let mut digests: Vec<[u8; 32]> = Vec::new();
        let mut j: usize = 0;
        proof {
            assert(next_paths.take(0) =~= Seq::<Seq<bool>>::empty());
        }
        while j < parents.len()
            invariant
                j <= parents@.len(),
                self.keys == old(self).keys,
                self.admitted == old(self).admitted,
                self.level == old(self).level,
                self.depth == old(self).depth,
                self.started == old(self).started,
                self.server_id == old(self).server_id,
                self.seed == old(self).seed,
                self.level < self.depth,
                parents@ == old(self).frontier@,
                old(self).wf(),
                entries == old(self).entries(),
                paths0 == old(self).paths(),
                chains0 == old(self).chains(),
                next_paths == children(paths0),
                start@ == session_hash(self.seed@),
                self.chains@.len() == self.keys@.len(),
                next@.len() == 2 * j,
                forall|k: int|
                    0 <= k < 2 * j ==> (#[trigger] next@[k]).matches(self.keys@) && next@[k].path@
                        == next_paths[k],
                forall|i: int|
                    0 <= i < self.keys@.len() ==> (#[trigger] self.chains@[i])@ == if verify {
                        chain_over(entries[i].key, next_paths.take(2 * j), chains0[i])
                    } else {
                        chains0[i]
                    },
                digests@.len() == if verify { 2 * j } else { 0 },
                forall|k: int|
                    0 <= k < digests@.len() ==> (#[trigger] digests@[k])@ == entry_digest(
                        entries,
                        next_paths[k],
                        start@,
                    ),
            decreases parents@.len() - j,
        {
            let parent = &parents[j];
            let ghost before = self.chains@;
            proof {
                assert(old(self).frontier@[j as int].matches(self.keys@));
                assert(parent.path@ == paths0[j as int]);
            }
            let (left, right, left_digest, right_digest) = make_children(
                &self.keys,
                &self.admitted,
                &mut self.chains,
                &start,
                parent,
                verify,
            );
            next.push(left);
            next.push(right);
            if verify {
                digests.push(left_digest);
                digests.push(right_digest);
            }
            proof {
                let grown = next_paths.take(2 * j + 2);
                assert(next_paths[2 * j] == paths0[j as int].push(false));
                assert(next_paths[2 * j + 1] == paths0[j as int].push(true));
                assert(grown.drop_last() =~= next_paths.take(2 * j + 1));
                assert(grown.drop_last().drop_last() =~= next_paths.take(2 * j));
                assert(grown.last() == next_paths[2 * j + 1]);
                assert(grown.drop_last().last() == next_paths[2 * j]);
                assert forall|i: int| 0 <= i < self.keys@.len() implies (
                #[trigger] self.chains@[i])@ == if verify {
                    chain_over(entries[i].key, grown, chains0[i])
                } else {
                    chains0[i]
                } by {
                    assert(entries[i].key == self.keys@[i]@);
                    if verify {
                        assert(before[i]@ == chain_over(
                            entries[i].key,
                            next_paths.take(2 * j),
                            chains0[i],
                        ));
                        lemma_chain_over_two(entries[i].key, grown, chains0[i]);
                    } else {
                        assert(before[i]@ == chains0[i]);
                    }
                }
            }
            j += 1;
        }
        self.frontier = next;
        self.level = self.level + 1;
        proof {
            assert(next_paths.take(2 * j) =~= next_paths);
            assert(self.paths() =~= next_paths);
            assert(self.entries() =~= entries);
            if verify {
                assert(self.chains() =~= chains_over(entries, next_paths, chains0));
                assert(hashes(digests@) =~= digests_at(entries, next_paths, start@));
            } else {
                assert(self.chains() =~= chains0);
                assert(hashes(digests@) =~= Seq::<Seq<u8>>::empty());
            }
        }
        digests
    }

    /// Crawls `depth` levels down from the frontier.
    ///
    /// First the keys at the indices in `excluded` lose their admission, for
    /// this and all later rounds. Then every path of the frontier is replaced
    /// by its two children, `depth` times over. The first result holds, for
    /// every path of the new frontier, the sum of the shares of the admitted
    /// keys: this server's share of the path's count.
    ///
    /// With `verify`, every key's hash chain takes in the nodes of every
    /// level that the crawl reaches, and the second result holds one digest
    /// for every path of the new frontier, over the verification material of
    /// the admitted keys there. Without it the chains stay and the second
    /// result is empty, as it is when `depth` is zero.
    ///
    /// The crawl itself flags no key, with or without `verify`. One server
    /// holds one half of every key pair, and a forged half looks like an
    /// honest one: a forgery shows only where the two servers' chains for a
    /// key differ. So the servers exchange what a verified crawl has made,
    /// compare it (see `flag_mismatches`), and hand the indices that the
    /// comparison flags to a later crawl as `excluded`. The third result
    /// tells which of the indices in `excluded` were admitted until this
    /// call, in ascending order: the keys that this call has newly excluded.
    /// It does not depend on `verify`.
    pub fn tree_crawl(&mut self, depth: usize, excluded: &[usize], verify: bool) -> (out: (
        Vec<T>,
        Vec<[u8; 32]>,
        Vec<usize>,
    ))
        requires
            old(self).wf(),
            old(self).started(),
            old(self).level() + depth <= old(self).domain_bits(),
        ensures
            final(self).wf(),
            final(self).started(),
            final(self).server() == old(self).server(),
            final(self).session() == old(self).session(),
            final(self).domain_bits() == old(self).domain_bits(),
            final(self).entries() == exclude(old(self).entries(), excluded@),
            final(self).level() == old(self).level() + depth,
            final(self).paths() == descend(old(self).paths(), depth as nat),
            final(self).chains() == if verify {
                chains_descend(
                    final(self).entries(),
                    old(self).paths(),
                    depth as nat,
                    old(self).chains(),
                )
            } else {
                old(self).chains()
            },
            all_wf(out.0@),
            out.0@.len() == final(self).paths().len(),
            vals(out.0@) == counts_at(final(self).entries(), final(self).paths(), T::modulus()),
            hashes(out.1@) == if verify && depth > 0 {
                digests_at(
                    final(self).entries(),
                    final(self).paths(),
                    session_hash(final(self).session()),
                )
            } else {
                Seq::<Seq<u8>>::empty()
            },
            out.2@ == newly_excluded(old(self).entries(), excluded@, old(self).entries().len()),
    {
        let ghost paths0 = self.paths();
        let ghost chains0 = self.chains();
        let newly = self.apply_exclusions(excluded);
        let ghost entries = self.entries();
        let mut digests: Vec<[u8; 32]> = Vec::new();
        let mut d: usize = 0;
        proof {
            self.lemma_shape();
            assert(hashes(digests@) =~= Seq::<Seq<u8>>::empty());
            assert(chains_descend(entries, paths0, 0, chains0) =~= chains0);
        }
        while d < depth
            invariant
                d <= depth,
                self.wf(),
                self.started(),
                self.server() == old(self).server(),
                self.session() == old(self).session(),
                self.domain_bits() == old(self).domain_bits(),
                self.entries() == entries,
                self.level() == old(self).level() + d,
                old(self).level() + depth <= old(self).domain_bits(),
                self.paths() == descend(paths0, d as nat),
                chains0.len() == entries.len(),
                self.chains() == if verify {
                    chains_descend(entries, paths0, d as nat, chains0)
                } else {
                    chains0
                },
                hashes(digests@) == if verify && d > 0 {
                    digests_at(entries, self.paths(), session_hash(self.session()))
                } else {
                    Seq::<Seq<u8>>::empty()
                },
            decreases depth - d,
        {
            let ghost before = self.chains();
            digests = self.crawl_level(verify);
            proof {
                if verify {
                    assert(chains_over(entries, self.paths(), before) =~= chains_descend(
                        entries,
                        paths0,
                        (d + 1) as nat,
                        chains0,
                    ));
                }
            }
            d += 1;
        }
        let counts = self.frontier_counts();
        (counts, digests, newly)
    }

    /// Crawls the last level, down to the paths of full length, with
    /// verification. The first result holds this server's share of the count
    /// of every path of the new frontier; the second holds the hash chain of
    /// every key, in the order of the keys, after it has taken in the nodes of
    /// the new frontier.
    pub fn tree_crawl_last(&mut self) -> (out: (Vec<T>, Vec<[u8; 32]>))
        requires
            old(self).wf(),
            old(self).started(),
            old(self).level() + 1 == old(self).domain_bits(),
        ensures
            final(self).wf(),
            final(self).started(),
            final(self).server() == old(self).server(),
            final(self).session() == old(self).session(),
            final(self).domain_bits() == old(self).domain_bits(),
            final(self).entries() == old(self).entries(),
            final(self).level() == final(self).domain_bits(),
            final(self).paths() == children(old(self).paths()),
            final(self).chains() == chains_over(
                final(self).entries(),
                final(self).paths(),
                old(self).chains(),
            ),
            all_wf(out.0@),
            out.0@.len() == final(self).paths().len(),
            vals(out.0@) == counts_at(final(self).entries(), final(self).paths(), T::modulus()),
            hashes(out.1@) == final(self).chains(),
    {
        let _ = self.crawl_level(true);
        let counts = self.frontier_counts();
        let finished = self.key_chains();
        (counts, finished)
    }

    /// Prunes the frontier: the paths whose flag in `keep` is not set leave
    /// it for good, the others stay in their order.
    pub fn tree_prune(&mut self, keep: &[bool])
        requires
            old(self).wf(),
            keep@.len() == old(self).paths().len(),
        ensures
            final(self).wf(),
            final(self).started() == old(self).started(),
            final(self).server() == old(self).server(),
            final(self).session() == old(self).session(),
            final(self).domain_bits() == old(self).domain_bits(),
            final(self).entries() == old(self).entries(),
            final(self).chains() == old(self).chains(),
            final(self).level() == old(self).level(),
            final(self).paths() == retain(old(self).paths(), keep@),
    {
        let ghost paths0 = self.paths();
        let mut nodes: Vec<TreeNode<T>> = Vec::new();
        core::mem::swap(&mut self.frontier, &mut nodes);
        let mut kept: Vec<TreeNode<T>> = Vec::new();
        let mut j: usize = 0;
        proof {
            assert(paths0.take(0) =~= Seq::<Seq<bool>>::empty());
        }
        while j < nodes.len()
            invariant
                j <= nodes@.len(),
                nodes@.len() == old(self).frontier@.len(),
                keep@.len() == nodes@.len(),
                paths0 == old(self).paths(),
                old(self).wf(),
                self.keys == old(self).keys,
                self.level == old(self).level,
                forall|k: int|
                    j <= k < nodes@.len() ==> #[trigger] nodes@[k] == old(self).frontier@[k],
                forall|k: int|
                    0 <= k < kept@.len() ==> (#[trigger] kept@[k]).matches(self.keys@)
                        && kept@[k].path@.len() == self.level,
                Seq::new(kept@.len(), |k: int| kept@[k].path@) == retain(
                    paths0.take(j as int),
                    keep@.take(j as int),
                ),
            decreases nodes@.len() - j,
        {
            proof {
                assert(paths0.take(j + 1).drop_last() =~= paths0.take(j as int));
                assert(keep@.take(j + 1).drop_last() =~= keep@.take(j as int));
                assert(paths0.take(j + 1).last() == paths0[j as int]);
                assert(old(self).frontier@[j as int].matches(self.keys@));
            }
            if keep[j] {
                let mut node = TreeNode {
                    path: Vec::new(),
                    key_states: Vec::new(),
                    key_values: Vec::new(),
                };
                nodes.set_and_swap(j, &mut node);
                let ghost before = Seq::new(kept@.len(), |k: int| kept@[k].path@);
                kept.push(node);
                assert(Seq::new(kept@.len(), |k: int| kept@[k].path@) =~= before.push(
                    paths0[j as int],
                ));
            }
            j += 1;
        }
        self.frontier = kept;
        proof {
            assert(paths0.take(j as int) =~= paths0);
            assert(keep@.take(j as int) =~= keep@);
            assert(self.paths() =~= retain(paths0, keep@));
        }
    }

    /// The paths of the frontier, each with this server's share of its
    /// count.
    pub fn final_shares(&self) -> (out: Vec<HeavyHitter<T>>)
        requires
            self.wf(),
        ensures
            values_wf(out@),
            hitters(out@) == shares_at(self.entries(), self.paths(), T::modulus()),
    {
        let counts = self.frontier_counts();
        let ghost m = T::modulus();
        let mut out: Vec<HeavyHitter<T>> = Vec::new();
        let mut j: usize = 0;
        assert(vals(counts@).len() == counts@.len());
        assert(self.paths().len() == self.frontier@.len());
        while j < self.frontier.len()
            invariant
                j <= self.frontier@.len(),
                counts@.len() == self.frontier@.len(),
                all_wf(counts@),
                vals(counts@) == counts_at(self.entries(), self.paths(), m),
                out@.len() == j,
                values_wf(out@),
                forall|k: int|
                    0 <= k < j ==> (#[trigger] out@[k]).path@ == self.frontier@[k].path@
                        && out@[k].value == counts@[k],
            decreases self.frontier@.len() - j,
        {
            out.push(HeavyHitter { path: copy_bits(&self.frontier[j].path), value: counts[j] });
            j += 1;
        }
        proof {
            assert forall|k: int| 0 <= k < out@.len() implies #[trigger] hitters(out@)[k]
                == shares_at(self.entries(), self.paths(), m)[k] by {
                assert(vals(counts@)[k] == counts@[k].val());
            }
            assert(hitters(out@) =~= shares_at(self.entries(), self.paths(), m));
        }
        out
    }
}

} // verus!
