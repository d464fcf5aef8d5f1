//! One participant's multi-order model.
//!
//! A `Chains` owns one Markov chain per order in a configured range,
//! together with the dedup index of every contiguous sub-sequence of
//! every token sequence ever fed (case-folded before digesting).  The
//! generators only surface candidates whose folded form is absent from
//! that index, so nothing fed is ever reproduced verbatim, and a
//! snapshot carries the chains and the index through the durable
//! store.

use vstd::prelude::*;

use crate::chain_model::{TokenChain, chain_empty, chain_serializes, chain_wf, yaml_renders};
use crate::codec::{decode_snapshot, decode_spec, encode_snapshot};
use crate::hashing::digest;
use crate::known::KnownSet;
use crate::rng::random_usize;
use crate::strutil::string_from_chars;
use crate::text::{fold_words, fold_tokens, tokenize, tokenize_spec};

verus! {

/// How many candidates one order tries before giving up.
pub const GEN_RETRIES: usize = 1000;

/// Of the novel candidates, one in this many is surfaced, to vary the
/// output.
pub const THINNING: usize = 10;

/// The digests of every contiguous non-empty sub-sequence of `toks`,
/// case-folded.
pub open spec fn sub_digests(toks: Seq<Seq<char>>) -> Set<u64> {
    Set::new(
        |h: u64|
            exists|i: int, j: int|
                0 <= i < j <= toks.len() && h == digest(fold_words(toks).subrange(i, j)),
    )
}

/// Whether `b` is a `serde_yaml` rendering of some chain value.
pub open spec fn blob_renders(b: Seq<char>) -> bool {
    exists|c: TokenChain| yaml_renders(c, b)
}

/// Whether `b` is a `serde_yaml` rendering of some well-shaped chain.
pub open spec fn blob_renders_wf(b: Seq<char>) -> bool {
    exists|c: TokenChain| yaml_renders(c, b) && chain_wf(c)
}

/// Every blob is a `serde_yaml` rendering of some chain value.
pub open spec fn blobs_render(bs: Seq<Seq<char>>) -> bool {
    forall|k: int| 0 <= k < bs.len() ==> blob_renders(#[trigger] bs[k])
}

/// Every blob is a `serde_yaml` rendering of some well-shaped chain.
pub open spec fn blobs_render_wf(bs: Seq<Seq<char>>) -> bool {
    forall|k: int| 0 <= k < bs.len() ==> blob_renders_wf(#[trigger] bs[k])
}

/// A failure to serialize or deserialize a model snapshot.
#[derive(Debug)]
pub enum SnapshotError {
    /// The text is not a well-formed snapshot.
    Format,
    /// A chain blob could not be rendered or read back.
    ChainData(serde_yaml::Error),
}

impl SnapshotError {
    /// A short description of the failure, for logs and replies.
    pub fn describe(&self) -> (r: &'static str)
        ensures
            self is Format ==> r@ == "malformed snapshot"@,
            self is ChainData ==> r@ == "unreadable chain data"@,
    {
        match self {
            SnapshotError::Format => "malformed snapshot",
            SnapshotError::ChainData(_) => "unreadable chain data",
        }
    }
}

/// One participant's model: a chain per order plus the dedup index.
pub struct Chains {
    min_order: usize,
    max_order: usize,
    chains: Vec<TokenChain>,
    known: KnownSet,
    fed: Ghost<Seq<Seq<Seq<char>>>>,
}

impl Chains {
    /// The smallest maintained order.
    pub closed spec fn min_ord(self) -> usize {
        self.min_order
    }

    /// The largest maintained order.
    pub closed spec fn max_ord(self) -> usize {
        self.max_order
    }

    /// The digests recorded in the dedup index.
    pub closed spec fn known_set(self) -> Set<u64> {
        self.known.set()
    }

    /// The canonical (sorted) listing of the dedup index.
    pub closed spec fn known_seq(self) -> Seq<u64> {
        self.known.seq()
    }

    /// Every token sequence ever fed into this model.
    pub closed spec fn fed_view(self) -> Seq<Seq<Seq<char>>> {
        self.fed@
    }

    /// How many order chains the model holds.
    pub closed spec fn order_count(self) -> int {
        self.chains@.len() as int
    }

    /// The chain at position `k` (order `min_ord() + k`).
    pub closed spec fn order_chain(self, k: int) -> TokenChain {
        self.chains@[k]
    }

    /// Whether the dedup index holds the folded form of `toks`.
    pub open spec fn knows(self, toks: Seq<Seq<char>>) -> bool {
        self.known_set().contains(digest(fold_words(toks)))
    }

    /// Every chain has the shape the reading calls need.  Feeding
    /// builds and keeps it; a model restored from a snapshot has it
    /// exactly when the snapshot's blobs rendered well-shaped chains,
    /// which the markov crate offers no way to check after the fact.
    pub closed spec fn gen_ready(self) -> bool {
        forall|k: int| 0 <= k < self.chains@.len() ==> chain_wf(#[trigger] self.chains@[k])
    }

    /// Whether every order's chain still holds nothing.
    pub closed spec fn all_empty(self) -> bool {
        forall|k: int| 0 <= k < self.chains@.len() ==> chain_empty(#[trigger] self.chains@[k])
    }

    /// Whether serde_yaml can render every order's chain.
    pub closed spec fn serializes(self) -> bool {
        forall|k: int|
            0 <= k < self.chains@.len() ==> chain_serializes(#[trigger] self.chains@[k])
    }

    /// The fields agree with each other: a valid order range, one
    /// chain per order, a sorted index.
    pub closed spec fn structure_ok(self) -> bool {
        &&& 1 <= self.min_order <= self.max_order
        &&& self.chains@.len() == self.max_order - self.min_order + 1
        &&& self.known.wf()
    }

    /// The dedup index covers every contiguous sub-sequence of every
    /// sequence ever fed.
    pub open spec fn covers_fed(self) -> bool {
        forall|si: int, i: int, j: int|
            0 <= si < self.fed_view().len() && 0 <= i < j <= self.fed_view()[si].len()
                ==> #[trigger] self.known_set().contains(
                digest(fold_words(self.fed_view()[si]).subrange(i, j)),
            )
    }

    /// The model invariant.
    pub open spec fn inv(self) -> bool {
        &&& self.structure_ok()
        &&& self.covers_fed()
    }

    /// A fresh model with chains of every order in `min..=max` and an
    /// empty dedup index.
    pub fn new(min: usize, max: usize) -> (r: Chains)
        requires
            1 <= min <= max,
        ensures
            r.inv(),
            r.min_ord() == min,
            r.max_ord() == max,
            r.known_set() =~= Set::<u64>::empty(),
            r.known_seq() == Seq::<u64>::empty(),
            r.fed_view() == Seq::<Seq<Seq<char>>>::empty(),
            r.gen_ready(),
            r.all_empty(),
    {
        let count: usize = max - min + 1;
        let mut chains: Vec<TokenChain> = Vec::new();
        let mut i: usize = 0;
        while i < count
            invariant
                i <= count,
                count == max - min + 1,
                min >= 1,
                min + count - 1 <= usize::MAX,
                chains@.len() == i,
                forall|k: int| 0 <= k < i ==> chain_wf(#[trigger] chains@[k]) && chain_empty(
                    chains@[k],
                ),
            decreases count - i,
        {
            chains.push(TokenChain::of_order(min + i));
            i = i + 1;
        }
        Chains { min_order: min, max_order: max, chains, known: KnownSet::new(), fed: Ghost(Seq::empty()) }
    }

    /// Whether the folded form of `generated` is in the dedup index.
    pub fn check_known(&self, generated: &Vec<String>) -> (r: bool)
        ensures
            r == self.knows(generated.deep_view()),
    {
        let lw = fold_tokens(generated);
        let h = crate::hashing::digest_tokens(&lw);
        self.known.contains(h)
    }

    /// Tokenizes `msg`, feeds the tokens into every order's chain,
    /// records the digest of every contiguous sub-sequence of the
    /// folded tokens, and returns the tokens.
    pub fn feed(&mut self, msg: &str) -> (r: Vec<String>)
        requires
            old(self).inv(),
        ensures
            final(self).inv(),
            r.deep_view() == tokenize_spec(msg@),
            final(self).min_ord() == old(self).min_ord(),
            final(self).max_ord() == old(self).max_ord(),
            final(self).fed_view() == old(self).fed_view().push(tokenize_spec(msg@)),
            final(self).known_set() == old(self).known_set() + sub_digests(tokenize_spec(msg@)),
            old(self).gen_ready() ==> final(self).gen_ready(),
    {
        let tokens = tokenize(msg);
        let mut idx: usize = 0;
        while idx < self.chains.len()
            invariant
                idx <= self.chains@.len(),
                self.chains@.len() == old(self).chains@.len(),
                self.min_order == old(self).min_order,
                self.max_order == old(self).max_order,
                self.known == old(self).known,
                self.fed == old(self).fed,
                old(self).inv(),
                self.structure_ok(),
                old(self).gen_ready() ==> (forall|k: int|
                    0 <= k < self.chains@.len() ==> chain_wf(#[trigger] self.chains@[k])),
            decreases self.chains@.len() - idx,
        {
            let ghost prev = self.chains@;
            let mut c = self.chains.remove(idx);
            c.feed(&tokens);
            self.chains.insert(idx, c);
            proof {
                if old(self).gen_ready() {
                    assert forall|k: int| 0 <= k < self.chains@.len() implies chain_wf(
                        #[trigger] self.chains@[k],
                    ) by {
                        if k != idx {
                            assert(self.chains@[k] == prev[k]);
                        }
                    }
                }
            }
            idx = idx + 1;
        }
        remember_all(&mut self.known, &tokens);
        proof {
            self.fed@ = self.fed@.push(tokens.deep_view());
        }
        proof {
            let post = *self;
            let pre = *old(self);
            let t = tokens.deep_view();
            assert forall|si: int, i: int, j: int|
                0 <= si < post.fed_view().len() && 0 <= j <= post.fed_view()[si].len() && 0 <= i < j
                    implies #[trigger] post.known_set().contains(
                    digest(fold_words(post.fed_view()[si]).subrange(i, j)),
                ) by {
                if si < pre.fed_view().len() {
                    assert(post.fed_view()[si] == pre.fed_view()[si]);
                    assert(pre.known_set().contains(
                        digest(fold_words(pre.fed_view()[si]).subrange(i, j)),
                    ));
                } else {
                    assert(post.fed_view()[si] == t);
                    assert(sub_digests(t).contains(digest(fold_words(t).subrange(i, j))));
                }
            }
        }
        tokens
    }

    /// One bounded-retry generation attempt against the chain at
    /// `idx`: generate, discard empty candidates (a seed token the
    /// chain never saw yields one) and anything the dedup index
    /// knows, and surface a novel candidate only one time in
    /// `THINNING`.
    fn gen_one(&self, idx: usize, seed: Option<&str>) -> (r: Option<Vec<String>>)
        requires
            self.inv(),
            self.gen_ready(),
            idx < self.chains@.len(),
            seed is None ==> !crate::chain_model::chain_empty(self.chains@[idx as int]),
        ensures
            r is Some ==> !self.knows(r->Some_0.deep_view()),
            r is Some ==> r->Some_0@.len() > 0,
            r is Some && seed is Some ==> r->Some_0@[0]@ == seed->Some_0@,
    {
        let c = &self.chains[idx];
        let mut attempt: usize = 0;
        while attempt < GEN_RETRIES
            invariant
                self.inv(),
                self.gen_ready(),
                idx < self.chains@.len(),
                c == &self.chains@[idx as int],
                seed is None ==> !crate::chain_model::chain_empty(self.chains@[idx as int]),
            decreases GEN_RETRIES - attempt,
        {
            let cand = match seed {
                Option::Some(t) => c.generate_from_token(t),
                Option::None => c.generate(),
            };
            if !cand.is_empty() && !self.check_known(&cand) {
                if random_usize() % THINNING == 0 {
                    return Some(cand);
                }
            }
            attempt = attempt + 1;
        }
        None
    }

    /// For every order whose chain holds data, tries to produce a
    /// novel continuation seeded by `token`; orders that yield nothing
    /// acceptable are left out.  Every surfaced sequence is novel (its
    /// folded form is absent from the dedup index) and, when
    /// non-empty, starts with the seed token.
    pub fn gen_from_token(&self, token: &str) -> (r: Vec<(usize, Vec<String>)>)
        requires
            self.inv(),
            self.gen_ready(),
        ensures
            forall|k: int|
                0 <= k < r@.len() ==> {
                    &&& self.min_ord() <= (#[trigger] r@[k]).0 <= self.max_ord()
                    &&& !chain_empty(self.order_chain((r@[k]).0 - self.min_ord()))
                    &&& !self.knows(r@[k].1.deep_view())
                    &&& (r@[k]).1@.len() > 0
                    &&& (r@[k]).1@[0]@ == token@
                },
            forall|k1: int, k2: int| 0 <= k1 < k2 < r@.len() ==> (r@[k1]).0 < (r@[k2]).0,
            self.all_empty() ==> r@.len() == 0,
    {
        let mut out: Vec<(usize, Vec<String>)> = Vec::new();
        let count = self.chains.len();
        let mut idx: usize = 0;
        while idx < count
            invariant
                self.inv(),
                self.gen_ready(),
                idx <= count,
                count == self.chains@.len(),
                self.all_empty() ==> out@.len() == 0,
                forall|k: int|
                    0 <= k < out@.len() ==> {
                        &&& self.min_ord() <= (#[trigger] out@[k]).0 <= self.max_ord()
                        &&& (out@[k]).0 < self.min_ord() + idx
                        &&& !chain_empty(self.order_chain((out@[k]).0 - self.min_ord()))
                        &&& !self.knows(out@[k].1.deep_view())
                        &&& (out@[k]).1@.len() > 0
                        &&& (out@[k]).1@[0]@ == token@
                    },
                forall|k1: int, k2: int| 0 <= k1 < k2 < out@.len() ==> (out@[k1]).0 < (out@[k2]).0,
            decreases count - idx,
        {
            let c = &self.chains[idx];
            if !c.is_empty() {
                match self.gen_one(idx, Some(token)) {
                    Option::Some(toks) => {
                        out.push((self.min_order + idx, toks));
                    },
                    Option::None => {},
                }
            }
            idx = idx + 1;
        }
        out
    }

    /// For every order whose chain holds data, tries to produce a
    /// novel sequence from the chain's own start state; orders that
    /// yield nothing acceptable are left out.  Every surfaced sequence
    /// is novel.
    pub fn gen_from_empty(&self) -> (r: Vec<(usize, Vec<String>)>)
        requires
            self.inv(),
            self.gen_ready(),
        ensures
            forall|k: int|
                0 <= k < r@.len() ==> {
                    &&& self.min_ord() <= (#[trigger] r@[k]).0 <= self.max_ord()
                    &&& !chain_empty(self.order_chain((r@[k]).0 - self.min_ord()))
                    &&& !self.knows(r@[k].1.deep_view())
                    &&& (r@[k]).1@.len() > 0
                },
            forall|k1: int, k2: int| 0 <= k1 < k2 < r@.len() ==> (r@[k1]).0 < (r@[k2]).0,
            self.all_empty() ==> r@.len() == 0,
    {
        let mut out: Vec<(usize, Vec<String>)> = Vec::new();
        let count = self.chains.len();
        let mut idx: usize = 0;
        while idx < count
            invariant
                self.inv(),
                self.gen_ready(),
                idx <= count,
                count == self.chains@.len(),
                self.all_empty() ==> out@.len() == 0,
                forall|k: int|
                    0 <= k < out@.len() ==> {
                        &&& self.min_ord() <= (#[trigger] out@[k]).0 <= self.max_ord()
                        &&& (out@[k]).0 < self.min_ord() + idx
                        &&& !chain_empty(self.order_chain((out@[k]).0 - self.min_ord()))
                        &&& !self.knows(out@[k].1.deep_view())
                        &&& (out@[k]).1@.len() > 0
                    },
                forall|k1: int, k2: int| 0 <= k1 < k2 < out@.len() ==> (out@[k1]).0 < (out@[k2]).0,
            decreases count - idx,
        {
            let c = &self.chains[idx];
            if !c.is_empty() {
                match self.gen_one(idx, None) {
                    Option::Some(toks) => {
                        out.push((self.min_order + idx, toks));
                    },
                    Option::None => {},
                }
            }
            idx = idx + 1;
        }
        out
    }

    /// Whether `s` decodes to this model's orders and dedup listing,
    /// with `bs` as the chain blobs.
    pub open spec fn snapshot_decodes_for(self, s: Seq<char>, bs: Seq<Seq<char>>) -> bool {
        decode_spec(s) == Some((self.min_ord() as u64, self.max_ord() as u64, bs, self.known_seq()))
    }

    /// Whether `s` decodes to this model's orders and dedup listing
    /// with blobs `bs` that render chain values — well-shaped ones,
    /// when this model's chains are.
    pub open spec fn snapshot_good_for(self, s: Seq<char>, bs: Seq<Seq<char>>) -> bool {
        &&& self.snapshot_decodes_for(s, bs)
        &&& blobs_render(bs)
        &&& (self.gen_ready() ==> blobs_render_wf(bs))
    }

    /// Serializes the full state — every order's chain and the dedup
    /// index — into one self-describing text that `restore` reads back
    /// exactly.
    pub fn snapshot(&self) -> (r: Result<String, SnapshotError>)
        requires
            self.inv(),
        ensures
            self.serializes() ==> r is Ok,
            r is Err ==> !self.serializes(),
            r is Ok ==> exists|bs: Seq<Seq<char>>| self.snapshot_good_for(r->Ok_0@, bs),
            r is Ok ==> {
                let d = decode_spec(r->Ok_0@)->Some_0;
                &&& decode_spec(r->Ok_0@) is Some
                &&& d.2.len() == self.order_count()
                &&& forall|k: int|
                    0 <= k < self.order_count() ==> yaml_renders(
                        #[trigger] self.order_chain(k),
                        d.2[k],
                    )
            },
    {
        let mut blobs: Vec<String> = Vec::new();
        let mut idx: usize = 0;
        while idx < self.chains.len()
            invariant
                self.inv(),
                idx <= self.chains@.len(),
                blobs@.len() == idx,
                forall|k: int| 0 <= k < idx ==> (#[trigger] blobs.deep_view()[k]).len()
                    <= usize::MAX,
                forall|k: int| 0 <= k < idx ==> yaml_renders(
                    self.chains@[k],
                    #[trigger] blobs.deep_view()[k],
                ),
            decreases self.chains@.len() - idx,
        {
            let c = &self.chains[idx];
            let ghost prev_deep = blobs.deep_view();
            match c.to_yaml() {
                Result::Ok(b) => {
                    let ghost bv = b@;
                    blobs.push(b);
                    proof {
                        assert(blobs.deep_view() =~~= prev_deep.push(bv));
                    }
                },
                Result::Err(e) => {
                    proof {
                        assert(!chain_serializes(self.chains@[idx as int]));
                    }
                    return Err(SnapshotError::ChainData(e));
                },
            }
            idx = idx + 1;
        }
        let digests = self.known.to_vec();
        // a vector's exec length bounds the digest count for the encoder
        let digest_count = digests.len();
        proof {
            assert(digests@.len() == digest_count);
        }
        let cs = encode_snapshot(
            self.min_order as u64,
            self.max_order as u64,
            &blobs,
            &digests,
        );
        let out = string_from_chars(&cs);
        let res: Result<String, SnapshotError> = Ok(out);
        proof {
            crate::codec::lemma_snapshot_round_trip(
                self.min_order as u64,
                self.max_order as u64,
                blobs.deep_view(),
                digests@,
            );
            assert(self.snapshot_decodes_for(res->Ok_0@, blobs.deep_view()));
            assert forall|k: int| 0 <= k < blobs.deep_view().len() implies blob_renders(
                #[trigger] blobs.deep_view()[k],
            ) by {
                assert(yaml_renders(self.chains@[k], blobs.deep_view()[k]));
            }
            if self.gen_ready() {
                assert forall|k: int| 0 <= k < blobs.deep_view().len() implies blob_renders_wf(
                    #[trigger] blobs.deep_view()[k],
                ) by {
                    assert(yaml_renders(self.chains@[k], blobs.deep_view()[k]) && chain_wf(
                        self.chains@[k],
                    ));
                }
            }
            assert(self.snapshot_good_for(res->Ok_0@, blobs.deep_view()));
            assert(exists|bs: Seq<Seq<char>>| self.snapshot_good_for(res->Ok_0@, bs));
            assert(decode_spec(res->Ok_0@)->Some_0.2 == blobs.deep_view());
        }
        res
    }

    /// Replaces the full state with the one a snapshot text encodes.
    /// On any failure the model is left untouched: a text that is not
    /// a well-formed snapshot is `Format`, a chain blob that
    /// serde_yaml cannot read back is `ChainData`.  After a restore
    /// the dedup index holds exactly the digests of the snapshot.
    pub fn restore(&mut self, raw: &str) -> (r: Result<(), SnapshotError>)
        requires
            old(self).inv(),
        ensures
            final(self).inv(),
            r is Err ==> *final(self) == *old(self),
            decode_spec(raw@) is None <==> r matches Err(SnapshotError::Format),
            r is Ok ==> {
                let d = decode_spec(raw@)->Some_0;
                &&& decode_spec(raw@) is Some
                &&& final(self).min_ord() == d.0 as usize
                &&& final(self).max_ord() == d.1 as usize
                &&& final(self).known_set() == d.3.to_set()
                &&& final(self).fed_view() == Seq::<Seq<Seq<char>>>::empty()
                &&& (blobs_render_wf(d.2) ==> final(self).gen_ready())
                &&& final(self).order_count() == d.1 - d.0 + 1
                &&& forall|k: int, c: TokenChain|
                    0 <= k < final(self).order_count() && #[trigger] yaml_renders(c, d.2[k])
                        ==> final(self).order_chain(k) == c
            },
            (decode_spec(raw@) matches Some(d) && blobs_render(d.2)) ==> r is Ok,
            r matches Err(e) && e is ChainData ==> decode_spec(raw@) is Some && !blobs_render(
                decode_spec(raw@)->Some_0.2,
            ),
    {
        let cs = crate::strutil::chars_of(raw);
        let dec = match decode_snapshot(&cs) {
            Option::Some(d) => d,
            Option::None => {
                return Err(SnapshotError::Format);
            },
        };
        proof {
            crate::codec::lemma_dec_blobs_len(
                cs@,
                32,
                (decode_spec(cs@)->Some_0.1 - decode_spec(cs@)->Some_0.0 + 1) as nat,
            );
        }
        let mut new_chains: Vec<TokenChain> = Vec::new();
        let mut idx: usize = 0;
        let nblobs = dec.blobs.len();
        let ghost bs = decode_spec(raw@)->Some_0.2;
        proof {
            assert(bs == dec.blobs.deep_view());
        }
        while idx < nblobs
            invariant
                idx <= nblobs,
                nblobs == dec.blobs@.len(),
                new_chains@.len() == idx,
                *self == *old(self),
                old(self).inv(),
                decode_spec(raw@) is Some,
                bs == decode_spec(raw@)->Some_0.2,
                bs == dec.blobs.deep_view(),
                forall|k: int|
                    0 <= k < idx ==> (blob_renders_wf(#[trigger] bs[k]) ==> chain_wf(
                        new_chains@[k],
                    )),
                forall|k: int, c: TokenChain|
                    0 <= k < idx && #[trigger] yaml_renders(c, bs[k]) ==> new_chains@[k] == c,
            decreases nblobs - idx,
        {
            let ghost prev = new_chains@;
            proof {
                assert(bs[idx as int] == dec.blobs@[idx as int].deep_view());
            }
            match TokenChain::from_yaml(dec.blobs[idx].as_str()) {
                Result::Ok(c) => {
                    new_chains.push(c);
                    proof {
                        assert forall|k: int|
                            0 <= k < idx + 1 implies (blob_renders_wf(#[trigger] bs[k])
                            ==> chain_wf(new_chains@[k])) by {
                            if k < idx {
                                assert(new_chains@[k] == prev[k]);
                            } else {
                                if blob_renders_wf(bs[k]) {
                                    let cw = choose|cw: TokenChain|
                                        yaml_renders(cw, bs[k]) && chain_wf(cw);
                                    assert(new_chains@[k] == cw);
                                }
                            }
                        }
                        assert forall|k: int, c2: TokenChain|
                            0 <= k < idx + 1 && #[trigger] yaml_renders(c2, bs[k])
                            implies new_chains@[k] == c2 by {
                            if k < idx {
                                assert(new_chains@[k] == prev[k]);
                            }
                        }
                    }
                },
                Result::Err(e) => {
                    proof {
                        if blob_renders(bs[idx as int]) {
                            let cw = choose|cw: TokenChain| yaml_renders(cw, bs[idx as int]);
                            assert(false);
                        }
                        assert(!blobs_render(bs));
                    }
                    return Err(SnapshotError::ChainData(e));
                },
            }
            idx = idx + 1;
        }
        self.min_order = dec.min_order as usize;
        self.max_order = dec.max_order as usize;
        self.chains = new_chains;
        self.known = KnownSet::from_vec(&dec.digests);
        self.fed = Ghost(Seq::empty());
        proof {
            if blobs_render_wf(bs) {
                assert forall|k: int| 0 <= k < self.chains@.len() implies chain_wf(
                    #[trigger] self.chains@[k],
                ) by {
                    assert(blob_renders_wf(bs[k]));
                }
            }
        }
        Ok(())
    }

    /// Novelty law: a candidate that the dedup index clears never has
    /// the folded form of any contiguous sub-sequence — the whole
    /// included — of anything fed into this model.
    pub proof fn lemma_novel_not_fed(self, toks: Seq<Seq<char>>, si: int, i: int, j: int)
        requires
            self.inv(),
            !self.knows(toks),
            0 <= si < self.fed_view().len(),
            0 <= i < j <= self.fed_view()[si].len(),
        ensures
            fold_words(toks) != fold_words(self.fed_view()[si]).subrange(i, j),
    {
        if fold_words(toks) == fold_words(self.fed_view()[si]).subrange(i, j) {
            assert(self.known_set().contains(
                digest(fold_words(self.fed_view()[si]).subrange(i, j)),
            ));
        }
    }

    /// Snapshot round-trip law for the chains: a model restored from
    /// a model's own snapshot holds, position for position, the very
    /// chain values the original held, so its generation behavior is
    /// the original's.
    pub proof fn lemma_snapshot_restores_chains(pre: Chains, snap: Seq<char>, post: Chains)
        requires
            decode_spec(snap) is Some,
            decode_spec(snap)->Some_0.2.len() == pre.order_count(),
            forall|k: int|
                0 <= k < pre.order_count() ==> yaml_renders(
                    #[trigger] pre.order_chain(k),
                    decode_spec(snap)->Some_0.2[k],
                ),
            post.order_count() == pre.order_count(),
            forall|k: int, c: TokenChain|
                0 <= k < post.order_count() && #[trigger] yaml_renders(
                    c,
                    decode_spec(snap)->Some_0.2[k],
                ) ==> post.order_chain(k) == c,
        ensures
            forall|k: int|
                0 <= k < post.order_count() ==> #[trigger] post.order_chain(k) == pre.order_chain(
                    k,
                ),
    {
        assert forall|k: int| 0 <= k < post.order_count() implies #[trigger] post.order_chain(k)
            == pre.order_chain(k) by {
            assert(yaml_renders(pre.order_chain(k), decode_spec(snap)->Some_0.2[k]));
        }
    }

    /// Snapshot round-trip law for the dedup index: a model restored
    /// from a model's snapshot knows exactly the token sequences the
    /// original knew, so novelty checks behave identically.
    pub proof fn lemma_snapshot_preserves_dedup(pre: Chains, snap: Seq<char>, post: Chains)
        requires
            exists|bs: Seq<Seq<char>>| pre.snapshot_decodes_for(snap, bs),
            post.known_set() == decode_spec(snap)->Some_0.3.to_set(),
        ensures
            forall|toks: Seq<Seq<char>>| #[trigger] post.knows(toks) == pre.knows(toks),
    {
        let bs = choose|bs: Seq<Seq<char>>| pre.snapshot_decodes_for(snap, bs);
        assert(decode_spec(snap)->Some_0.3 == pre.known_seq());
        assert(post.known_set() =~= pre.known_set());
    }
}

/// Records the digest of every contiguous non-empty sub-sequence of
/// the folded tokens in the index.
fn remember_all(known: &mut KnownSet, tokens: &Vec<String>)
    requires
        old(known).wf(),
    ensures
        final(known).wf(),
        final(known).set() == old(known).set() + sub_digests(tokens.deep_view()),
{
    let lw = fold_tokens(tokens);
    let ghost toks = tokens.deep_view();
    let ghost base = old(known).set();
    let n = lw.len();
    proof {
        crate::text::lemma_fold_words_index(toks);
        assert(lw.deep_view().len() == toks.len());
    }
    let mut i: usize = 0;
    while i < n
        invariant
            i <= n,
            n == toks.len(),
            lw.deep_view() == fold_words(toks),
            known.wf(),
            forall|x: u64| base.contains(x) ==> known.set().contains(x),
            forall|x: u64| known.set().contains(x) ==> base.contains(x) || sub_digests(
                toks,
            ).contains(x),
            forall|a: int, b: int|
                0 <= a < i && a < b <= n ==> #[trigger] known.set().contains(
                    digest(fold_words(toks).subrange(a, b)),
                ),
        decreases n - i,
    {
        let mut h = crate::hashing::DIGEST_SEED;
        proof {
            crate::text::lemma_fold_words_index(toks);
            assert(fold_words(toks).subrange(i as int, i as int) =~= Seq::<Seq<char>>::empty());
        }
        let mut j: usize = i;
        while j < n
            invariant
                i <= j <= n,
                n == toks.len(),
                lw.deep_view() == fold_words(toks),
                known.wf(),
                h == crate::hashing::digest_from(
                    crate::hashing::DIGEST_SEED,
                    fold_words(toks).subrange(i as int, j as int),
                ),
                forall|x: u64| base.contains(x) ==> known.set().contains(x),
                forall|x: u64| known.set().contains(x) ==> base.contains(x) || sub_digests(
                    toks,
                ).contains(x),
                forall|a: int, b: int|
                    0 <= a < i && a < b <= n ==> #[trigger] known.set().contains(
                        digest(fold_words(toks).subrange(a, b)),
                    ),
                forall|b: int|
                    i < b <= j ==> #[trigger] known.set().contains(
                        digest(fold_words(toks).subrange(i as int, b)),
                    ),
            decreases n - j,
        {
            proof {
                crate::text::lemma_fold_words_index(toks);
                let sub = fold_words(toks).subrange(i as int, j + 1);
                assert(sub.drop_last() =~= fold_words(toks).subrange(i as int, j as int));
                assert(sub.last() == fold_words(toks)[j as int]);
                assert(lw.deep_view()[j as int] == lw@[j as int].deep_view());
            }
            h = crate::hashing::fold_token(h, lw[j].as_str());
            known.insert(h);
            proof {
                assert(known.set().contains(digest(fold_words(toks).subrange(i as int, j + 1))));
                assert(sub_digests(toks).contains(h)) by {
                    assert(0 <= i < j + 1 <= toks.len() && h == digest(
                        fold_words(toks).subrange(i as int, j + 1),
                    ));
                }
            }
            j = j + 1;
        }
        i = i + 1;
    }
    proof {
        assert forall|x: u64| sub_digests(toks).contains(x) implies known.set().contains(x) by {
            let (a, b): (int, int) = choose|a: int, b: int|
                0 <= a < b <= toks.len() && x == digest(fold_words(toks).subrange(a, b));
            assert(known.set().contains(digest(fold_words(toks).subrange(a, b))));
        }
        assert(final(known).set() =~= old(known).set() + sub_digests(toks));
    }
}

} // verus!
