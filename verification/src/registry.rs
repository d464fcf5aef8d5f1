//! The model registry.
//!
//! Maps each `(chat, user)` pair to that participant's model, creates
//! models on first use, remembers which chats were already hydrated
//! from the durable store, and counts feeds to decide when a model is
//! due for a write-through.  The store itself is outside this crate:
//! hydration and persistence are expressed as plain values — a scan
//! pattern to ask for, key/value pairs to apply, key/value pairs to
//! write — that the surrounding process exchanges with the store.

use vstd::prelude::*;

use crate::Settings;
use crate::chain_model::chain_empty;
use crate::chains::{Chains, SnapshotError, sub_digests};
use crate::codec::decode_spec;
use crate::numbers::{dec_i64, push_dec_i64};
use crate::strutil::{chars_of, string_from_chars};
use crate::text::{fold_of, join_words, tokenize_spec};
use crate::username::UserName;

verus! {

/// A pending write to the durable store.
pub struct PersistRequest {
    /// The store key, `"{chat}_{folded user name}"`.
    pub key: String,
    /// The snapshot text to store under it.
    pub value: String,
}

/// One entry read back from the durable store during hydration.
pub struct StoreEntry {
    /// The store key, `"{chat}_{folded user name}"`.
    pub key: String,
    /// The snapshot text stored under it.
    pub value: String,
}

/// One record of an imported message history.
pub struct HistoryRecord {
    /// The author, where the export names one.
    pub author: Option<String>,
    /// The message payload.
    pub text: RecordText,
}

/// A history record's payload: only plain text is learned from.
pub enum RecordText {
    /// A plain string message.
    Plain(String),
    /// A structured text/link segment list; skipped by learning.
    Segments,
}

/// The store key of a model: the chat id in decimal, `_`, then the
/// folded user name.
pub open spec fn store_key_spec(chat: i64, key: Seq<char>) -> Seq<char> {
    dec_i64(chat) + seq!['_'] + key
}

/// The store scan pattern of a chat: its id in decimal, then `*`.
pub open spec fn scan_pattern_spec(chat: i64) -> Seq<char> {
    dec_i64(chat) + seq!['*']
}

/// The folded user name embedded in a store key: everything after the
/// first `_`, folded; `None` when the key holds no `_`.
pub open spec fn key_user_part(s: Seq<char>) -> Option<Seq<char>>
    decreases s.len(),
{
    if s.len() == 0 {
        None
    } else if s[0] == '_' {
        Some(s.drop_first())
    } else {
        key_user_part(s.drop_first())
    }
}

/// Whether a store entry cannot be applied: its key holds no user
/// name, or its value is not a well-formed snapshot.
pub open spec fn entry_malformed(e: StoreEntry) -> bool {
    key_user_part(e.key@) is None || decode_spec(e.value@) is None
}

/// The folded user name a store entry registers.
pub open spec fn entry_user_key(e: StoreEntry) -> Seq<char> {
    fold_of(key_user_part(e.key@)->0)
}

/// Whether a history record is learned from, under an optional folded
/// author filter.
pub open spec fn accepted_record(rec: HistoryRecord, filter: Option<Seq<char>>) -> bool {
    &&& rec.author is Some
    &&& (filter is Some ==> fold_of(rec.author->0@) == filter->0)
    &&& rec.text is Plain
    &&& rec.text->0@.len() > 0
}

/// How many records of a history are learned from.
pub open spec fn accepted_count(recs: Seq<HistoryRecord>, filter: Option<Seq<char>>) -> int
    decreases recs.len(),
{
    if recs.len() == 0 {
        0int
    } else {
        accepted_count(recs.drop_last(), filter) + if accepted_record(recs.last(), filter) {
            1int
        } else {
            0int
        }
    }
}

/// The tokenized texts a history feeds into the author keyed `key`,
/// in their order of appearance.
pub open spec fn accepted_texts_for(
    recs: Seq<HistoryRecord>,
    filter: Option<Seq<char>>,
    key: Seq<char>,
) -> Seq<Seq<Seq<char>>>
    decreases recs.len(),
{
    if recs.len() == 0 {
        Seq::empty()
    } else {
        let rest = accepted_texts_for(recs.drop_last(), filter, key);
        if accepted_record(recs.last(), filter) && fold_of(recs.last().author->0@) == key {
            rest.push(tokenize_spec(recs.last().text->0@))
        } else {
            rest
        }
    }
}

/// A record that is not accepted feeds nothing: extending the prefix
/// by it leaves every author's text list unchanged.
pub proof fn lemma_atf_skip(recs: Seq<HistoryRecord>, filter: Option<Seq<char>>, i: int)
    requires
        0 <= i < recs.len(),
        !accepted_record(recs[i], filter),
    ensures
        forall|key: Seq<char>| #[trigger] accepted_texts_for(recs.take(i + 1), filter, key)
            == accepted_texts_for(recs.take(i), filter, key),
{
    assert(recs.take(i + 1).drop_last() =~= recs.take(i));
    assert(recs.take(i + 1).last() == recs[i]);
}

/// Under a filter, every accepted record belongs to the filtered
/// author, so that author's text count is the accepted count.
pub proof fn lemma_filtered_texts_count(recs: Seq<HistoryRecord>, fk: Seq<char>)
    ensures
        accepted_texts_for(recs, Some(fk), fk).len() == accepted_count(recs, Some(fk)),
    decreases recs.len(),
{
    if recs.len() > 0 {
        lemma_filtered_texts_count(recs.drop_last(), fk);
    }
}

/// Under a filter, no author but the filtered one is fed anything.
pub proof fn lemma_filtered_texts_key(recs: Seq<HistoryRecord>, fk: Seq<char>, key: Seq<char>)
    requires
        key != fk,
    ensures
        accepted_texts_for(recs, Some(fk), key).len() == 0,
    decreases recs.len(),
{
    if recs.len() > 0 {
        lemma_filtered_texts_key(recs.drop_last(), fk, key);
    }
}

struct UserEntry {
    name: UserName,
    model: Chains,
}

struct ChatEntry {
    chat: i64,
    users: Vec<UserEntry>,
}

spec fn chats_has(chats: Seq<ChatEntry>, chat: i64) -> bool {
    exists|k: int| 0 <= k < chats.len() && (#[trigger] chats[k]).chat == chat
}

spec fn chats_entry(chats: Seq<ChatEntry>, chat: i64) -> ChatEntry {
    chats[choose|k: int| 0 <= k < chats.len() && (#[trigger] chats[k]).chat == chat]
}

spec fn users_has(users: Seq<UserEntry>, key: Seq<char>) -> bool {
    exists|u: int| 0 <= u < users.len() && (#[trigger] users[u]).name.key() == key
}

spec fn users_entry(users: Seq<UserEntry>, key: Seq<char>) -> UserEntry {
    users[choose|u: int| 0 <= u < users.len() && (#[trigger] users[u]).name.key() == key]
}

/// The in-memory registry of models.
pub struct Brain {
    settings: Settings,
    msg_fed: u64,
    chats: Vec<ChatEntry>,
    hydrated: Vec<i64>,
}

impl Brain {
    /// The configuration the registry was built with.
    pub closed spec fn config(self) -> Settings {
        self.settings
    }

    /// How many feeds the registry has seen, over all chats.
    pub closed spec fn fed_count(self) -> u64 {
        self.msg_fed
    }

    /// Whether a chat has been hydrated from the durable store.
    pub closed spec fn is_hydrated(self, chat: i64) -> bool {
        self.hydrated@.contains(chat)
    }

    /// Whether any model is registered for the chat.
    pub closed spec fn has_chat(self, chat: i64) -> bool {
        chats_has(self.chats@, chat)
    }

    spec fn chat_entry(self, chat: i64) -> ChatEntry {
        chats_entry(self.chats@, chat)
    }

    /// How many users have a model in the chat.
    pub closed spec fn user_count(self, chat: i64) -> int {
        if self.has_chat(chat) {
            self.chat_entry(chat).users@.len() as int
        } else {
            0int
        }
    }

    /// Whether a model exists for the pair of `chat` and the folded
    /// name `key`.
    pub closed spec fn has_user(self, chat: i64, key: Seq<char>) -> bool {
        &&& self.has_chat(chat)
        &&& users_has(self.chat_entry(chat).users@, key)
    }

    spec fn user_entry(self, chat: i64, key: Seq<char>) -> UserEntry {
        users_entry(self.chat_entry(chat).users@, key)
    }

    /// The model registered for the pair.
    pub closed spec fn model_of(self, chat: i64, key: Seq<char>) -> Chains {
        self.user_entry(chat, key).model
    }

    spec fn users_ok(users: Seq<UserEntry>) -> bool {
        &&& forall|u1: int, u2: int|
            0 <= u1 < u2 < users.len() ==> (#[trigger] users[u1]).name.key() != (
            #[trigger] users[u2]).name.key()
        &&& forall|u: int|
            0 <= u < users.len() ==> (#[trigger] users[u]).name.wf() && users[u].model.inv()
    }

    /// The registry invariant: a valid configuration, chats keyed
    /// uniquely, users keyed uniquely by folded name, every model
    /// internally consistent.
    pub closed spec fn wf(self) -> bool {
        &&& self.settings.wf()
        &&& forall|k1: int, k2: int|
            0 <= k1 < k2 < self.chats@.len() ==> (#[trigger] self.chats@[k1]).chat != (
            #[trigger] self.chats@[k2]).chat
        &&& forall|k: int|
            0 <= k < self.chats@.len() ==> Self::users_ok((#[trigger] self.chats@[k]).users@)
    }

    /// A fresh registry with no models and no hydrated chats.
    pub fn new(settings: Settings) -> (r: Brain)
        requires
            settings.wf(),
        ensures
            r.wf(),
            r.config() == settings,
            r.fed_count() == 0,
            forall|c: i64| !r.is_hydrated(c),
            forall|c: i64| !r.has_chat(c),
            forall|c: i64, k: Seq<char>| !r.has_user(c, k),
            forall|c: i64| r.user_count(c) == 0,
    {
        Brain { settings, msg_fed: 0, chats: Vec::new(), hydrated: Vec::new() }
    }

    /// How many feeds the registry has counted so far.
    pub fn feeds_so_far(&self) -> (r: u64)
        ensures
            r == self.fed_count(),
    {
        self.msg_fed
    }

    /// True exactly when a model already exists in memory for the
    /// pair; a pure lookup with no side effects.
    pub fn is_known_user(&self, chat: i64, user: &UserName) -> (r: bool)
        requires
            self.wf(),
        ensures
            r == self.has_user(chat, user.key()),
    {
        let mut k: usize = 0;
        while k < self.chats.len()
            invariant
                k <= self.chats@.len(),
                self.wf(),
                forall|j: int| 0 <= j < k ==> (#[trigger] self.chats@[j]).chat != chat,
            decreases self.chats@.len() - k,
        {
            if self.chats[k].chat == chat {
                proof {
                    lemma_chat_entry_at(*self, chat, k as int);
                }
                let users = &self.chats[k].users;
                let mut u: usize = 0;
                while u < users.len()
                    invariant
                        u <= users@.len(),
                        users@ == self.chat_entry(chat).users@,
                        self.has_chat(chat),
                        forall|j: int| 0 <= j < u ==> (#[trigger] users@[j]).name.key()
                            != user.key(),
                    decreases users@.len() - u,
                {
                    if users[u].name.same_key(user) {
                        return true;
                    }
                    u = u + 1;
                }
                return false;
            }
            k = k + 1;
        }
        false
    }
}

/// Some registered model of the chat that serde_yaml cannot render —
/// the only thing a persistence failure can stem from.
pub open spec fn unserializable_model(b: Brain, chat: i64) -> bool {
    exists|key: Seq<char>| b.has_user(chat, key) && !(#[trigger] b.model_of(chat, key)).serializes()
}

/// A write-through addressed to a user registered in the chat, under
/// that user's store key.
pub open spec fn req_for_registered(b: Brain, chat: i64, req: PersistRequest) -> bool {
    exists|key: Seq<char>| b.has_user(chat, key) && req.key@ == store_key_spec(chat, key)
}

/// Whether some listed name carries the folded key.
spec fn name_listed(ns: Seq<UserName>, key: Seq<char>) -> bool {
    exists|n: int| 0 <= n < ns.len() && (#[trigger] ns[n]).key() == key
}

/// Whether the request list holds a write-through under the key's
/// store key.
pub open spec fn req_listed(reqs: Seq<PersistRequest>, chat: i64, key: Seq<char>) -> bool {
    exists|q: int| 0 <= q < reqs.len() && (#[trigger] reqs[q]).key@ == store_key_spec(chat, key)
}

/// Store keys of one chat agree exactly when the folded names do.
proof fn lemma_store_key_injective(chat: i64, k1: Seq<char>, k2: Seq<char>)
    requires
        store_key_spec(chat, k1) == store_key_spec(chat, k2),
    ensures
        k1 == k2,
{
    let p = dec_i64(chat) + seq!['_'];
    assert(store_key_spec(chat, k1) =~= p + k1);
    assert(store_key_spec(chat, k2) =~= p + k2);
    assert(k1 =~= (p + k1).skip(p.len() as int));
    assert(k2 =~= (p + k2).skip(p.len() as int));
}

/// The sequences a model held before an operation, or nothing when
/// the pair had no model yet.
pub open spec fn model_fed_before(b: Brain, chat: i64, key: Seq<char>) -> Seq<Seq<Seq<char>>> {
    if b.has_user(chat, key) {
        b.model_of(chat, key).fed_view()
    } else {
        Seq::empty()
    }
}

/// The dedup digests a model held before an operation, or nothing
/// when the pair had no model yet.
pub open spec fn model_known_before(b: Brain, chat: i64, key: Seq<char>) -> Set<u64> {
    if b.has_user(chat, key) {
        b.model_of(chat, key).known_set()
    } else {
        Set::empty()
    }
}

impl Brain {
    /// Whether every model of the chat is ready for generation: its
    /// chains have the shape the markov crate's reading calls need.
    /// Models built by feeding always are; a model hydrated from the
    /// durable store is when its snapshot's chain blobs rendered
    /// well-shaped chains, which a crafted store value need not — and
    /// the markov crate offers no way to validate a deserialized
    /// chain, so that residue of trust stands as a precondition on
    /// the generators rather than as a silent panic inside them.
    pub open spec fn chat_gen_ready(self, chat: i64) -> bool {
        forall|key: Seq<char>|
            self.has_user(chat, key) ==> (#[trigger] self.model_of(chat, key)).gen_ready()
    }

    /// A reply the registry may surface: produced by a registered
    /// user's model at the requested order — which that model
    /// maintains and whose chain holds data — novel for that model,
    /// non-empty, and short enough.
    pub open spec fn novel_reply(
        self,
        chat: i64,
        key: Seq<char>,
        order: usize,
        toks: Seq<Seq<char>>,
        text: Seq<char>,
    ) -> bool {
        let m = self.model_of(chat, key);
        &&& self.has_user(chat, key)
        &&& m.min_ord() <= order <= m.max_ord()
        &&& !chain_empty(m.order_chain(order - m.min_ord()))
        &&& !m.knows(toks)
        &&& 0 < toks.len() < self.config().max_reply_tokens
        &&& text == join_words(toks)
    }

    /// A `novel_reply` whose token sequence starts with the seed
    /// token.
    pub open spec fn seeded_reply(
        self,
        chat: i64,
        key: Seq<char>,
        order: usize,
        toks: Seq<Seq<char>>,
        text: Seq<char>,
        seed: Seq<char>,
    ) -> bool {
        &&& self.novel_reply(chat, key, order, toks, text)
        &&& toks[0] == seed
    }

    fn find_chat_idx(&self, chat: i64) -> (r: Option<usize>)
        requires
            self.wf(),
        ensures
            r is Some ==> r->0 < self.chats@.len() && self.chats@[r->0 as int].chat == chat,
            r is None ==> !self.has_chat(chat),
    {
        let mut k: usize = 0;
        while k < self.chats.len()
            invariant
                k <= self.chats@.len(),
                forall|j: int| 0 <= j < k ==> (#[trigger] self.chats@[j]).chat != chat,
            decreases self.chats@.len() - k,
        {
            if self.chats[k].chat == chat {
                return Some(k);
            }
            k = k + 1;
        }
        None
    }

    /// Creates the pair's model if it is missing (with the configured
    /// order range), feeds `msg` into it, and returns the tokens.
    fn feed_user_model(&mut self, chat: i64, user: &UserName, msg: &str) -> (tokens: Vec<String>)
        requires
            old(self).wf(),
            user.wf(),
        ensures
            final(self).wf(),
            final(self).config() == old(self).config(),
            final(self).fed_count() == old(self).fed_count(),
            final(self).hydrated == old(self).hydrated,
            tokens.deep_view() == tokenize_spec(msg@),
            final(self).has_user(chat, user.key()),
            final(self).model_of(chat, user.key()).fed_view() == model_fed_before(
                *old(self),
                chat,
                user.key(),
            ).push(tokenize_spec(msg@)),
            final(self).model_of(chat, user.key()).known_set() == model_known_before(
                *old(self),
                chat,
                user.key(),
            ) + sub_digests(tokenize_spec(msg@)),
            !old(self).has_user(chat, user.key()) ==> final(self).model_of(
                chat,
                user.key(),
            ).min_ord() == old(self).config().min_order && final(self).model_of(
                chat,
                user.key(),
            ).max_ord() == old(self).config().max_order,
            forall|c: i64| c != chat ==> final(self).has_chat(c) == old(self).has_chat(c),
            forall|c: i64, kk: Seq<char>|
                c != chat ==> final(self).has_user(c, kk) == old(self).has_user(c, kk),
            forall|c: i64, kk: Seq<char>|
                c != chat && old(self).has_user(c, kk) ==> final(self).model_of(c, kk) == old(
                    self,
                ).model_of(c, kk),
            forall|kk: Seq<char>|
                kk != user.key() ==> final(self).has_user(chat, kk) == old(self).has_user(chat, kk),
            forall|kk: Seq<char>|
                kk != user.key() && old(self).has_user(chat, kk) ==> final(self).model_of(chat, kk)
                    == old(self).model_of(chat, kk),
    {
        let ghost pre = *self;
        let ci: usize = match self.find_chat_idx(chat) {
            Option::Some(i) => i,
            Option::None => {
                self.chats.push(ChatEntry { chat, users: Vec::new() });
                proof {
                    assert forall|k1: int, k2: int|
                        0 <= k1 < k2 < self.chats@.len() implies (#[trigger] self.chats@[k1]).chat
                        != (#[trigger] self.chats@[k2]).chat by {
                        if k2 == self.chats@.len() - 1 {
                            assert(self.chats@[k1] == pre.chats@[k1]);
                        }
                    }
                    assert(Self::users_ok(self.chats@[self.chats@.len() - 1].users@));
                    assert forall|k: int| 0 <= k < self.chats@.len() implies Self::users_ok(
                        (#[trigger] self.chats@[k]).users@,
                    ) by {
                        if k < self.chats@.len() - 1 {
                            assert(self.chats@[k] == pre.chats@[k]);
                        }
                    }
                }
                self.chats.len() - 1
            },
        };
        let ghost mid = *self;
        let ghost new_chat = (ci == pre.chats@.len());
        let mut ce = self.chats.remove(ci);
        let ghost pre_users = ce.users@;
        let mut u: usize = 0;
        let mut found: Option<usize> = None;
        while u < ce.users.len()
            invariant
                u <= ce.users@.len(),
                found is Some ==> found->0 < ce.users@.len() && ce.users@[
                    found->0 as int
                ].name.key() == user.key(),
                found is None ==> forall|j: int|
                    0 <= j < u ==> (#[trigger] ce.users@[j]).name.key() != user.key(),
            decreases ce.users@.len() - u,
        {
            if found.is_none() && ce.users[u].name.same_key(user) {
                found = Some(u);
            }
            u = u + 1;
        }
        proof {
            assert(Self::users_ok(mid.chats@[ci as int].users@));
            assert(pre_users == mid.chats@[ci as int].users@);
        }
        let upos: usize;
        let mut ue: UserEntry;
        match found {
            Option::Some(ui) => {
                upos = ui;
                ue = ce.users.remove(ui);
            },
            Option::None => {
                upos = ce.users.len();
                ue = UserEntry {
                    name: user.duplicate(),
                    model: Chains::new(self.settings.min_order, self.settings.max_order),
                };
            },
        }
        let tokens = ue.model.feed(msg);
        let ghost fed_model = ue.model;
        match found {
            Option::Some(_) => {
                ce.users.insert(upos, ue);
                proof {
                    assert(ce.users@ =~= pre_users.update(upos as int, ce.users@[upos as int]));
                }
            },
            Option::None => {
                ce.users.push(ue);
                proof {
                    assert(ce.users@ =~= pre_users.push(ce.users@[upos as int]));
                }
            },
        }
        self.chats.insert(ci, ce);
        proof {
            assert(self.chats@ =~= mid.chats@.update(ci as int, self.chats@[ci as int]));
            let users_now = self.chats@[ci as int].users@;
            // users of this chat stay uniquely keyed and valid
            assert forall|u1: int, u2: int| 0 <= u1 < u2 < users_now.len() implies (
            #[trigger] users_now[u1]).name.key() != (#[trigger] users_now[u2]).name.key() by {
                if found is Some {
                    assert(users_now[upos as int].name.key() == user.key());
                    if u1 != upos {
                        assert(users_now[u1] == pre_users[u1]);
                    }
                    if u2 != upos {
                        assert(users_now[u2] == pre_users[u2]);
                    }
                } else {
                    if u2 == upos {
                        assert(users_now[u1] == pre_users[u1]);
                        assert(users_now[upos as int].name.key() == user.key());
                    } else {
                        assert(users_now[u1] == pre_users[u1]);
                        assert(users_now[u2] == pre_users[u2]);
                    }
                }
            }
            assert forall|j: int| 0 <= j < users_now.len() implies (
            #[trigger] users_now[j]).name.wf() && users_now[j].model.inv() by {
                if j == upos {
                } else {
                    assert(users_now[j] == pre_users[j]);
                }
            }
            assert(Self::users_ok(users_now));
            // all chats stay uniquely keyed and valid
            assert forall|k1: int, k2: int|
                0 <= k1 < k2 < self.chats@.len() implies (#[trigger] self.chats@[k1]).chat != (
            #[trigger] self.chats@[k2]).chat by {
                if k1 != ci {
                    assert(self.chats@[k1] == mid.chats@[k1]);
                }
                if k2 != ci {
                    assert(self.chats@[k2] == mid.chats@[k2]);
                }
            }
            assert forall|k: int| 0 <= k < self.chats@.len() implies Self::users_ok(
                (#[trigger] self.chats@[k]).users@,
            ) by {
                if k != ci {
                    assert(self.chats@[k] == mid.chats@[k]);
                }
            }
            assert(self.wf());
            // the target pair
            lemma_chat_entry_at(*self, chat, ci as int);
            lemma_user_entry_at(*self, chat, upos as int);
            assert(self.model_of(chat, user.key()) == fed_model);
            // before the call, the model (if any) was the one at the found index
            if found is Some {
                lemma_chat_entry_at(mid, chat, ci as int);
                lemma_user_entry_at(mid, chat, found->0 as int);
                assert(model_fed_before(mid, chat, user.key()) == pre_users[
                    found->0 as int
                ].model.fed_view());
            } else {
                // the key was not found among the chat's users, so no
                // model existed for the pair before the call
                if mid.has_user(chat, user.key()) {
                    lemma_chat_entry_at(mid, chat, ci as int);
                    let uw = choose|uw: int|
                        0 <= uw < mid.chat_entry(chat).users@.len() && (#[trigger] mid.chat_entry(
                            chat,
                        ).users@[uw]).name.key() == user.key();
                    assert(false);
                }
            }
            // frames for other chats
            assert forall|c: i64| c != chat implies self.has_chat(c) == mid.has_chat(c) by {
                lemma_frame_chat(mid, *self, ci as int, chat, c);
            }
            assert forall|c: i64, kk: Seq<char>| c != chat implies self.has_user(c, kk)
                == mid.has_user(c, kk) && (mid.has_user(c, kk) ==> self.model_of(c, kk)
                == mid.model_of(c, kk)) by {
                lemma_frame_chat(mid, *self, ci as int, chat, c);
                if mid.has_chat(c) {
                    lemma_same_chat_users(mid, *self, c);
                }
            }
            // frames for other users of this chat
            assert forall|kk: Seq<char>| kk != user.key() implies self.has_user(chat, kk)
                == mid.has_user(chat, kk) && (mid.has_user(chat, kk) ==> self.model_of(chat, kk)
                == mid.model_of(chat, kk)) by {
                lemma_chat_entry_at(*self, chat, ci as int);
                lemma_chat_entry_at(mid, chat, ci as int);
                lemma_frame_users(
                    mid.chat_entry(chat).users@,
                    self.chat_entry(chat).users@,
                    upos as int,
                    user.key(),
                    kk,
                );
                if mid.has_user(chat, kk) {
                    let j = choose|j: int|
                        0 <= j < mid.chat_entry(chat).users@.len() && (#[trigger] mid.chat_entry(
                            chat,
                        ).users@[j]).name.key() == kk;
                    lemma_user_entry_at(mid, chat, j);
                    if j == upos && found is Some {
                        // the slot at `upos` carries the fed user's key,
                        // which `kk` is not
                        assert(false);
                    }
                    assert(self.chat_entry(chat).users@[j] == mid.chat_entry(chat).users@[j]);
                    lemma_user_entry_at(*self, chat, j);
                }
            }
            // frames between pre and mid (a pushed empty chat changes nothing else)
            if new_chat {
                assert forall|c: i64| c != chat implies mid.has_chat(c) == pre.has_chat(c) by {
                    lemma_frame_push_chat(pre, mid, chat, c);
                }
                assert forall|c: i64, kk: Seq<char>| c != chat implies mid.has_user(c, kk)
                    == pre.has_user(c, kk) && (pre.has_user(c, kk) ==> mid.model_of(c, kk)
                    == pre.model_of(c, kk)) by {
                    lemma_frame_push_chat(pre, mid, chat, c);
                    if pre.has_chat(c) {
                        lemma_same_chat_users(pre, mid, c);
                    }
                }
                assert(!pre.has_chat(chat));
                assert(!pre.has_user(chat, user.key()));
                assert(forall|kk: Seq<char>| !pre.has_user(chat, kk));
            } else {
                assert(mid == pre);
            }
        }
        tokens
    }
}

impl Brain {
    /// Replaces the pair's model with `model` (creating the chat slot
    /// or the user slot as needed).
    fn put_user_model(&mut self, chat: i64, user: &UserName, model: Chains)
        requires
            old(self).wf(),
            user.wf(),
            model.inv(),
        ensures
            final(self).wf(),
            final(self).config() == old(self).config(),
            final(self).fed_count() == old(self).fed_count(),
            final(self).hydrated == old(self).hydrated,
            final(self).has_user(chat, user.key()),
            final(self).model_of(chat, user.key()) == model,
            forall|c: i64, kk: Seq<char>|
                c != chat ==> final(self).has_user(c, kk) == old(self).has_user(c, kk),
            forall|c: i64, kk: Seq<char>|
                c != chat && old(self).has_user(c, kk) ==> final(self).model_of(c, kk) == old(
                    self,
                ).model_of(c, kk),
            forall|kk: Seq<char>|
                kk != user.key() ==> final(self).has_user(chat, kk) == old(self).has_user(chat, kk),
            forall|kk: Seq<char>|
                kk != user.key() && old(self).has_user(chat, kk) ==> final(self).model_of(chat, kk)
                    == old(self).model_of(chat, kk),
    {
        let ghost pre = *self;
        let ci: usize = match self.find_chat_idx(chat) {
            Option::Some(i) => i,
            Option::None => {
                self.chats.push(ChatEntry { chat, users: Vec::new() });
                proof {
                    assert forall|k1: int, k2: int|
                        0 <= k1 < k2 < self.chats@.len() implies (#[trigger] self.chats@[k1]).chat
                        != (#[trigger] self.chats@[k2]).chat by {
                        if k2 == self.chats@.len() - 1 {
                            assert(self.chats@[k1] == pre.chats@[k1]);
                        }
                    }
                    assert(Self::users_ok(self.chats@[self.chats@.len() - 1].users@));
                    assert forall|k: int| 0 <= k < self.chats@.len() implies Self::users_ok(
                        (#[trigger] self.chats@[k]).users@,
                    ) by {
                        if k < self.chats@.len() - 1 {
                            assert(self.chats@[k] == pre.chats@[k]);
                        }
                    }
                }
                self.chats.len() - 1
            },
        };
        let ghost mid = *self;
        let ghost new_chat = (ci == pre.chats@.len());
        let mut ce = self.chats.remove(ci);
        let ghost pre_users = ce.users@;
        let mut u: usize = 0;
        let mut found: Option<usize> = None;
        while u < ce.users.len()
            invariant
                u <= ce.users@.len(),
                found is Some ==> found->0 < ce.users@.len() && ce.users@[
                    found->0 as int
                ].name.key() == user.key(),
                found is None ==> forall|j: int|
                    0 <= j < u ==> (#[trigger] ce.users@[j]).name.key() != user.key(),
            decreases ce.users@.len() - u,
        {
            if found.is_none() && ce.users[u].name.same_key(user) {
                found = Some(u);
            }
            u = u + 1;
        }
        proof {
            assert(Self::users_ok(mid.chats@[ci as int].users@));
            assert(pre_users == mid.chats@[ci as int].users@);
        }
        let upos: usize;
        match found {
            Option::Some(ui) => {
                upos = ui;
                let _old_entry = ce.users.remove(ui);
                ce.users.insert(ui, UserEntry { name: user.duplicate(), model });
                proof {
                    assert(ce.users@ =~= pre_users.update(upos as int, ce.users@[upos as int]));
                }
            },
            Option::None => {
                upos = ce.users.len();
                ce.users.push(UserEntry { name: user.duplicate(), model });
                proof {
                    assert(ce.users@ =~= pre_users.push(ce.users@[upos as int]));
                }
            },
        }
        self.chats.insert(ci, ce);
        proof {
            assert(self.chats@ =~= mid.chats@.update(ci as int, self.chats@[ci as int]));
            let users_now = self.chats@[ci as int].users@;
            assert forall|u1: int, u2: int| 0 <= u1 < u2 < users_now.len() implies (
            #[trigger] users_now[u1]).name.key() != (#[trigger] users_now[u2]).name.key() by {
                if found is Some {
                    assert(users_now[upos as int].name.key() == user.key());
                    if u1 != upos {
                        assert(users_now[u1] == pre_users[u1]);
                    }
                    if u2 != upos {
                        assert(users_now[u2] == pre_users[u2]);
                    }
                } else {
                    if u2 == upos {
                        assert(users_now[u1] == pre_users[u1]);
                        assert(users_now[upos as int].name.key() == user.key());
                    } else {
                        assert(users_now[u1] == pre_users[u1]);
                        assert(users_now[u2] == pre_users[u2]);
                    }
                }
            }
            assert forall|j: int| 0 <= j < users_now.len() implies (
            #[trigger] users_now[j]).name.wf() && users_now[j].model.inv() by {
                if j == upos {
                } else {
                    assert(users_now[j] == pre_users[j]);
                }
            }
            assert(Self::users_ok(users_now));
            assert forall|k1: int, k2: int|
                0 <= k1 < k2 < self.chats@.len() implies (#[trigger] self.chats@[k1]).chat != (
            #[trigger] self.chats@[k2]).chat by {
                if k1 != ci {
                    assert(self.chats@[k1] == mid.chats@[k1]);
                }
                if k2 != ci {
                    assert(self.chats@[k2] == mid.chats@[k2]);
                }
            }
            assert forall|k: int| 0 <= k < self.chats@.len() implies Self::users_ok(
                (#[trigger] self.chats@[k]).users@,
            ) by {
                if k != ci {
                    assert(self.chats@[k] == mid.chats@[k]);
                }
            }
            assert(self.wf());
            lemma_chat_entry_at(*self, chat, ci as int);
            lemma_user_entry_at(*self, chat, upos as int);
            // frames for other chats
            assert forall|c: i64| c != chat implies self.has_chat(c) == mid.has_chat(c) by {
                lemma_frame_chat(mid, *self, ci as int, chat, c);
            }
            assert forall|c: i64, kk: Seq<char>| c != chat implies self.has_user(c, kk)
                == mid.has_user(c, kk) && (mid.has_user(c, kk) ==> self.model_of(c, kk)
                == mid.model_of(c, kk)) by {
                lemma_frame_chat(mid, *self, ci as int, chat, c);
                if mid.has_chat(c) {
                    lemma_same_chat_users(mid, *self, c);
                }
            }
            // frames for other users of this chat
            assert forall|kk: Seq<char>| kk != user.key() implies self.has_user(chat, kk)
                == mid.has_user(chat, kk) && (mid.has_user(chat, kk) ==> self.model_of(chat, kk)
                == mid.model_of(chat, kk)) by {
                lemma_chat_entry_at(*self, chat, ci as int);
                lemma_chat_entry_at(mid, chat, ci as int);
                lemma_frame_users(
                    mid.chat_entry(chat).users@,
                    self.chat_entry(chat).users@,
                    upos as int,
                    user.key(),
                    kk,
                );
                if mid.has_user(chat, kk) {
                    let j = choose|j: int|
                        0 <= j < mid.chat_entry(chat).users@.len() && (#[trigger] mid.chat_entry(
                            chat,
                        ).users@[j]).name.key() == kk;
                    lemma_user_entry_at(mid, chat, j);
                    if j == upos && found is Some {
                        // the slot at `upos` carries the fed user's key,
                        // which `kk` is not
                        assert(false);
                    }
                    assert(self.chat_entry(chat).users@[j] == mid.chat_entry(chat).users@[j]);
                    lemma_user_entry_at(*self, chat, j);
                }
            }
            // frames between pre and mid (a pushed empty chat changes nothing else)
            if new_chat {
                assert forall|c: i64| c != chat implies mid.has_chat(c) == pre.has_chat(c) by {
                    lemma_frame_push_chat(pre, mid, chat, c);
                }
                assert forall|c: i64, kk: Seq<char>| c != chat implies mid.has_user(c, kk)
                    == pre.has_user(c, kk) && (pre.has_user(c, kk) ==> mid.model_of(c, kk)
                    == pre.model_of(c, kk)) by {
                    lemma_frame_push_chat(pre, mid, chat, c);
                    if pre.has_chat(c) {
                        lemma_same_chat_users(pre, mid, c);
                    }
                }
                assert(!pre.has_chat(chat));
                assert(!pre.has_user(chat, user.key()));
                assert(forall|kk: Seq<char>| !pre.has_user(chat, kk));
            } else {
                assert(mid == pre);
            }
        }
    }

    /// Computes the write-through of one user's model: its store key
    /// and snapshot.  A pair with no model yields no write, as there
    /// is nothing to store.
    pub fn persist_request(&self, chat: i64, user: &UserName) -> (r: Result<
        Option<PersistRequest>,
        SnapshotError,
    >)
        requires
            self.wf(),
        ensures
            !self.has_user(chat, user.key()) ==> (r matches Ok(o) && o is None),
            self.has_user(chat, user.key()) ==> !(r matches Ok(o) && o is None),
            r is Err ==> self.has_user(chat, user.key()) && !self.model_of(
                chat,
                user.key(),
            ).serializes(),
            (r is Ok && r->Ok_0 is Some) ==> {
                let req = r->Ok_0->0;
                &&& self.has_user(chat, user.key())
                &&& req.key@ == store_key_spec(chat, user.key())
                &&& exists|bs: Seq<Seq<char>>|
                    self.model_of(chat, user.key()).snapshot_good_for(req.value@, bs)
            },
    {
        let ci: usize = match self.find_chat_idx(chat) {
            Option::Some(i) => i,
            Option::None => {
                return Ok(None);
            },
        };
        proof {
            lemma_chat_entry_at(*self, chat, ci as int);
        }
        let users = &self.chats[ci].users;
        let mut u: usize = 0;
        while u < users.len()
            invariant
                u <= users@.len(),
                self.wf(),
                self.has_chat(chat),
                users@ == self.chat_entry(chat).users@,
                forall|j: int| 0 <= j < u ==> (#[trigger] users@[j]).name.key() != user.key(),
            decreases users@.len() - u,
        {
            if users[u].name.same_key(user) {
                proof {
                    lemma_user_entry_at(*self, chat, u as int);
                }
                let m = &users[u].model;
                match m.snapshot() {
                    Result::Ok(v) => {
                        let req = PersistRequest { key: store_key(chat, user), value: v };
                        proof {
                            let model = self.model_of(chat, user.key());
                            assert(model == users@[u as int].model);
                            let bs = choose|bs: Seq<Seq<char>>|
                                users@[u as int].model.snapshot_good_for(req.value@, bs);
                            assert(model.snapshot_good_for(req.value@, bs));
                        }
                        return Ok(Some(req));
                    },
                    Result::Err(e) => {
                        return Err(e);
                    },
                }
            }
            u = u + 1;
        }
        Ok(None)
    }

    /// Creates the pair's model on first use, feeds `msg` into it,
    /// and counts the feed.  When `persist` is set and the feed count
    /// reaches a multiple of the configured frequency, the model's
    /// write-through is computed and returned; a failure to serialize
    /// it is reported for logging but the feed itself has succeeded.
    pub fn feed_message(&mut self, chat: i64, user: &UserName, msg: &str, persist: bool) -> (r:
        Result<Option<PersistRequest>, SnapshotError>)
        requires
            old(self).wf(),
            user.wf(),
            old(self).fed_count() < u64::MAX,
        ensures
            final(self).wf(),
            final(self).config() == old(self).config(),
            final(self).fed_count() == old(self).fed_count() + 1,
            forall|c: i64| final(self).is_hydrated(c) == old(self).is_hydrated(c),
            final(self).has_user(chat, user.key()),
            final(self).model_of(chat, user.key()).fed_view() == model_fed_before(
                *old(self),
                chat,
                user.key(),
            ).push(tokenize_spec(msg@)),
            final(self).model_of(chat, user.key()).known_set() == model_known_before(
                *old(self),
                chat,
                user.key(),
            ) + sub_digests(tokenize_spec(msg@)),
            !old(self).has_user(chat, user.key()) ==> final(self).model_of(
                chat,
                user.key(),
            ).min_ord() == old(self).config().min_order && final(self).model_of(
                chat,
                user.key(),
            ).max_ord() == old(self).config().max_order,
            forall|c: i64, kk: Seq<char>|
                c != chat ==> final(self).has_user(c, kk) == old(self).has_user(c, kk),
            forall|c: i64, kk: Seq<char>|
                c != chat && old(self).has_user(c, kk) ==> final(self).model_of(c, kk) == old(
                    self,
                ).model_of(c, kk),
            forall|kk: Seq<char>|
                kk != user.key() ==> final(self).has_user(chat, kk) == old(self).has_user(chat, kk),
            forall|kk: Seq<char>|
                kk != user.key() && old(self).has_user(chat, kk) ==> final(self).model_of(chat, kk)
                    == old(self).model_of(chat, kk),
            ({
                let due = persist && ((old(self).fed_count() + 1) as int) % (
                old(self).config().persist_every as int) == 0;
                &&& (!due ==> (r matches Ok(o) && o is None))
                &&& ((r is Ok && r->Ok_0 is Some) ==> due)
                &&& (r is Err ==> due)
                &&& (due ==> !(r matches Ok(o) && o is None))
                &&& (r is Err ==> !final(self).model_of(chat, user.key()).serializes())
                &&& ((r is Ok && r->Ok_0 is Some) ==> {
                    let req = r->Ok_0->0;
                    &&& req.key@ == store_key_spec(chat, user.key())
                    &&& exists|bs: Seq<Seq<char>>|
                        final(self).model_of(chat, user.key()).snapshot_good_for(req.value@, bs)
                })
            }),
    {
        let _tokens = self.feed_user_model(chat, user, msg);
        self.msg_fed = self.msg_fed + 1;
        let due = persist && self.msg_fed % (self.settings.persist_every as u64) == 0;
        if due {
            self.persist_request(chat, user)
        } else {
            Ok(None)
        }
    }

    /// The store scan this chat still needs: its key pattern on the
    /// first call, nothing once the chat is hydrated.
    pub fn hydration_request(&self, chat: i64) -> (r: Option<String>)
        requires
            self.wf(),
        ensures
            r is Some <==> !self.is_hydrated(chat),
            r matches Some(p) ==> p@ == scan_pattern_spec(chat),
    {
        let mut k: usize = 0;
        while k < self.hydrated.len()
            invariant
                k <= self.hydrated@.len(),
                forall|j: int| 0 <= j < k ==> self.hydrated@[j] != chat,
            decreases self.hydrated@.len() - k,
        {
            if self.hydrated[k] == chat {
                return None;
            }
            k = k + 1;
        }
        Some(scan_pattern(chat))
    }

    /// Applies the entries a store scan returned for the chat and
    /// marks it hydrated.  A second hydration of the same chat is a
    /// no-op that preserves all in-memory state.  On any bad entry —
    /// a key without a user name, or a snapshot that cannot be read —
    /// the error is surfaced and the chat stays not hydrated, so a
    /// later call may retry.
    pub fn apply_hydration(&mut self, chat: i64, entries: &Vec<StoreEntry>) -> (r: Result<
        (),
        SnapshotError,
    >)
        requires
            old(self).wf(),
        ensures
            final(self).wf(),
            final(self).config() == old(self).config(),
            final(self).fed_count() == old(self).fed_count(),
            old(self).is_hydrated(chat) ==> *final(self) == *old(self) && r is Ok,
            r is Ok ==> final(self).is_hydrated(chat),
            r is Err ==> final(self).is_hydrated(chat) == old(self).is_hydrated(chat),
            forall|c: i64| c != chat ==> final(self).is_hydrated(c) == old(self).is_hydrated(c),
            (!old(self).is_hydrated(chat) && entries@.len() == 0) ==> r is Ok,
            (r matches Err(e) && e is Format) ==> exists|i: int|
                0 <= i < entries@.len() && entry_malformed(#[trigger] entries@[i]),
            forall|c: i64, kk: Seq<char>|
                c != chat ==> final(self).has_user(c, kk) == old(self).has_user(c, kk),
            forall|c: i64, kk: Seq<char>|
                c != chat && old(self).has_user(c, kk) ==> final(self).model_of(c, kk) == old(
                    self,
                ).model_of(c, kk),
            (r is Ok && !old(self).is_hydrated(chat)) ==> forall|i: int|
                0 <= i < entries@.len() ==> key_user_part((#[trigger] entries@[i]).key@) is Some
                    && final(self).has_user(chat, entry_user_key(entries@[i])),
            (r is Ok && !old(self).is_hydrated(chat)) ==> forall|kk: Seq<char>|
                (forall|q: int|
                    0 <= q < entries@.len() ==> entry_user_key(#[trigger] entries@[q]) != kk)
                    ==> #[trigger] final(self).has_user(chat, kk) == old(self).has_user(chat, kk)
                    && (old(self).has_user(chat, kk) ==> final(self).model_of(chat, kk) == old(
                    self,
                ).model_of(chat, kk)),
            (r is Ok && !old(self).is_hydrated(chat)) ==> forall|i: int|
                (0 <= i < entries@.len() && (forall|j: int|
                    i < j < entries@.len() ==> entry_user_key(#[trigger] entries@[j])
                        != entry_user_key(entries@[i]))) ==> {
                    let d = decode_spec((#[trigger] entries@[i]).value@)->Some_0;
                    &&& final(self).model_of(chat, entry_user_key(entries@[i])).known_set()
                        == d.3.to_set()
                    &&& final(self).model_of(chat, entry_user_key(entries@[i])).fed_view()
                        == Seq::<Seq<Seq<char>>>::empty()
                },
    {
        let mut k: usize = 0;
        while k < self.hydrated.len()
            invariant
                k <= self.hydrated@.len(),
                *self == *old(self),
                old(self).wf(),
                forall|j: int| 0 <= j < k ==> self.hydrated@[j] != chat,
            decreases self.hydrated@.len() - k,
        {
            if self.hydrated[k] == chat {
                return Ok(());
            }
            k = k + 1;
        }
        proof {
            assert(!old(self).is_hydrated(chat));
        }
        let mut i: usize = 0;
        while i < entries.len()
            invariant
                i <= entries@.len(),
                self.wf(),
                self.config() == old(self).config(),
                self.fed_count() == old(self).fed_count(),
                self.hydrated == old(self).hydrated,
                !old(self).is_hydrated(chat),
                forall|c: i64, kk: Seq<char>|
                    c != chat ==> self.has_user(c, kk) == old(self).has_user(c, kk),
                forall|c: i64, kk: Seq<char>|
                    c != chat && old(self).has_user(c, kk) ==> self.model_of(c, kk) == old(
                        self,
                    ).model_of(c, kk),
                forall|q: int|
                    0 <= q < i ==> key_user_part((#[trigger] entries@[q]).key@) is Some
                        && self.has_user(chat, entry_user_key(entries@[q])),
                forall|kk: Seq<char>|
                    (forall|q: int| 0 <= q < i ==> entry_user_key(#[trigger] entries@[q]) != kk)
                        ==> #[trigger] self.has_user(chat, kk) == old(self).has_user(chat, kk) && (
                    old(self).has_user(chat, kk) ==> self.model_of(chat, kk) == old(self).model_of(
                        chat,
                        kk,
                    )),
                forall|q: int|
                    (0 <= q < i && (forall|j: int|
                        q < j < i ==> entry_user_key(#[trigger] entries@[j]) != entry_user_key(
                            entries@[q],
                        ))) ==> {
                        let d = decode_spec((#[trigger] entries@[q]).value@)->Some_0;
                        &&& self.model_of(chat, entry_user_key(entries@[q])).known_set()
                            == d.3.to_set()
                        &&& self.model_of(chat, entry_user_key(entries@[q])).fed_view()
                            == Seq::<Seq<Seq<char>>>::empty()
                    },
            decreases entries@.len() - i,
        {
            let name = match parse_key_user(entries[i].key.as_str()) {
                Option::Some(n) => n,
                Option::None => {
                    proof {
                        assert(entry_malformed(entries@[i as int]));
                    }
                    return Err(SnapshotError::Format);
                },
            };
            proof {
                assert(name.key() == entry_user_key(entries@[i as int]));
            }
            let mut fresh = Chains::new(self.settings.min_order, self.settings.max_order);
            let ghost before_put = *self;
            match fresh.restore(entries[i].value.as_str()) {
                Result::Ok(()) => {
                    self.put_user_model(chat, &name, fresh);
                    proof {
                        assert(self.model_of(chat, entry_user_key(entries@[i as int]))
                            == fresh);
                        assert forall|kk: Seq<char>|
                            (forall|q: int|
                                0 <= q < i + 1 ==> entry_user_key(#[trigger] entries@[q]) != kk)
                                implies #[trigger] self.has_user(chat, kk) == old(self).has_user(
                            chat,
                            kk,
                        ) && (old(self).has_user(chat, kk) ==> self.model_of(chat, kk) == old(
                            self,
                        ).model_of(chat, kk)) by {
                            assert(entry_user_key(entries@[i as int]) != kk);
                            assert(kk != name.key());
                            assert(before_put.has_user(chat, kk) == old(self).has_user(chat, kk));
                            if old(self).has_user(chat, kk) {
                                assert(before_put.model_of(chat, kk) == old(self).model_of(
                                    chat,
                                    kk,
                                ));
                            }
                        }
                    }
                },
                Result::Err(e) => {
                    proof {
                        if e is Format {
                            assert(entry_malformed(entries@[i as int]));
                        }
                    }
                    return Err(e);
                },
            }
            i = i + 1;
        }
        let ghost before = self.hydrated@;
        let ghost pre_push = *self;
        self.hydrated.push(chat);
        proof {
            assert(self.chats@ == pre_push.chats@);
            assert forall|kk: Seq<char>|
                (forall|q: int|
                    0 <= q < entries@.len() ==> entry_user_key(#[trigger] entries@[q]) != kk)
                    implies #[trigger] self.has_user(chat, kk) == old(self).has_user(chat, kk) && (
                old(self).has_user(chat, kk) ==> self.model_of(chat, kk) == old(self).model_of(
                    chat,
                    kk,
                )) by {
                assert(pre_push.has_user(chat, kk) == old(self).has_user(chat, kk));
                assert(self.has_user(chat, kk) == pre_push.has_user(chat, kk));
                if old(self).has_user(chat, kk) {
                    assert(self.model_of(chat, kk) == pre_push.model_of(chat, kk));
                }
            }
            assert(self.hydrated@ =~= before.push(chat));
            assert(self.hydrated@[self.hydrated@.len() - 1] == chat);
            assert(self.is_hydrated(chat));
            assert forall|c: i64| c != chat implies self.is_hydrated(c) == old(
                self,
            ).is_hydrated(c) by {
                if self.hydrated@.contains(c) {
                    let j = choose|j: int|
                        0 <= j < self.hydrated@.len() && self.hydrated@[j] == c;
                    assert(before[j] == c);
                }
                if before.contains(c) {
                    let j = choose|j: int| 0 <= j < before.len() && before[j] == c;
                    assert(self.hydrated@[j] == c);
                }
            }
        }
        Ok(())
    }

    /// Learns from an exported message history: every plain-text,
    /// non-empty record whose author passes the (case-insensitive)
    /// filter is fed into that author's model, without per-message
    /// persistence.  Afterwards the touched authors' write-throughs —
    /// only the filtered author's, if a filter was given — are
    /// computed and returned along with the count of records fed.
    pub fn learn_from_hist(
        &mut self,
        chat: i64,
        records: &Vec<HistoryRecord>,
        filter: Option<&UserName>,
    ) -> (r: Result<(usize, Vec<PersistRequest>), SnapshotError>)
        requires
            old(self).wf(),
            filter matches Some(f) ==> f.wf(),
            old(self).fed_count() + records@.len() <= u64::MAX,
        ensures
            final(self).wf(),
            final(self).config() == old(self).config(),
            forall|c: i64| final(self).is_hydrated(c) == old(self).is_hydrated(c),
            forall|c: i64, key: Seq<char>|
                c != chat ==> final(self).has_user(c, key) == old(self).has_user(c, key),
            forall|c: i64, key: Seq<char>|
                c != chat && old(self).has_user(c, key) ==> final(self).model_of(c, key) == old(
                    self,
                ).model_of(c, key),
            ({
                let fkey = match filter {
                    Option::Some(f) => Some(f.key()),
                    Option::None => None,
                };
                &&& final(self).fed_count() == old(self).fed_count() + accepted_count(
                    records@,
                    fkey,
                )
                &&& (r matches Ok(p) ==> p.0 == accepted_count(records@, fkey))
                &&& (forall|key: Seq<char>|
                    (#[trigger] accepted_texts_for(records@, fkey, key)).len() > 0
                        ==> final(self).has_user(chat, key)
                        && final(self).model_of(chat, key).fed_view()
                        == model_fed_before(*old(self), chat, key) + accepted_texts_for(
                        records@,
                        fkey,
                        key,
                    ))
                &&& (forall|key: Seq<char>|
                    (#[trigger] accepted_texts_for(records@, fkey, key)).len() == 0
                        ==> final(self).has_user(chat, key) == old(self).has_user(chat, key)
                        && (old(self).has_user(chat, key) ==> final(self).model_of(chat, key)
                        == old(self).model_of(chat, key)))
                &&& ((filter is Some && accepted_count(records@, fkey) == 0
                    && !old(self).has_user(chat, filter->0.key())) ==> r is Ok)
                &&& (r is Ok ==> forall|key: Seq<char>|
                    (#[trigger] accepted_texts_for(records@, fkey, key)).len() > 0 ==> req_listed(
                        r->Ok_0.1@,
                        chat,
                        key,
                    ))
            }),
            (filter is Some && r is Ok) ==> {
                let reqs = r->Ok_0.1;
                &&& reqs@.len() <= 1
                &&& (reqs@.len() == 1 ==> reqs@[0].key@ == store_key_spec(chat, filter->0.key()))
            },
            (filter is Some && r is Ok && accepted_count(
                records@,
                Some(filter->0.key()),
            ) > 0) ==> final(self).has_user(chat, filter->0.key()),
            r matches Ok(p) ==> forall|q: int|
                0 <= q < p.1@.len() ==> req_for_registered(*final(self), chat, #[trigger] p.1@[q]),
            r matches Ok(p) ==> forall|q1: int, q2: int|
                0 <= q1 < q2 < p.1@.len() ==> (#[trigger] p.1@[q1]).key@ != (
                #[trigger] p.1@[q2]).key@,
            (filter is Some && r is Ok && accepted_count(records@, Some(filter->0.key())) > 0)
                ==> r->Ok_0.1@.len() == 1,
            r is Err ==> unserializable_model(*final(self), chat),
    {
        let ghost fkey: Option<Seq<char>> = match filter {
            Option::Some(f) => Some(f.key()),
            Option::None => None,
        };
        let mut processed: usize = 0;
        let mut names: Vec<UserName> = Vec::new();
        let mut i: usize = 0;
        while i < records.len()
            invariant
                i <= records@.len(),
                self.wf(),
                self.config() == old(self).config(),
                self.hydrated == old(self).hydrated,
                old(self).fed_count() + records@.len() <= u64::MAX,
                processed <= i,
                processed == accepted_count(records@.take(i as int), fkey),
                self.fed_count() == old(self).fed_count() + processed,
                fkey == (match filter {
                    Option::Some(f) => Some(f.key()),
                    Option::None => None::<Seq<char>>,
                }),
                filter matches Some(f) ==> f.wf(),
                (filter is Some && processed > 0) ==> self.has_user(chat, filter->0.key()),
                forall|j: int| 0 <= j < names@.len() ==> (#[trigger] names@[j]).wf(),
                forall|n1: int, n2: int|
                    0 <= n1 < n2 < names@.len() ==> (#[trigger] names@[n1]).key() != (
                    #[trigger] names@[n2]).key(),
                forall|key: Seq<char>|
                    (#[trigger] accepted_texts_for(records@.take(i as int), fkey, key)).len() > 0
                        ==> name_listed(names@, key),
                forall|c: i64, key: Seq<char>|
                    c != chat ==> self.has_user(c, key) == old(self).has_user(c, key),
                forall|c: i64, key: Seq<char>|
                    c != chat && old(self).has_user(c, key) ==> self.model_of(c, key) == old(
                        self,
                    ).model_of(c, key),
                forall|key: Seq<char>|
                    (#[trigger] accepted_texts_for(records@.take(i as int), fkey, key)).len() > 0
                        ==> self.has_user(chat, key) && self.model_of(chat, key).fed_view()
                        == model_fed_before(*old(self), chat, key) + accepted_texts_for(
                        records@.take(i as int),
                        fkey,
                        key,
                    ),
                forall|key: Seq<char>|
                    (#[trigger] accepted_texts_for(records@.take(i as int), fkey, key)).len() == 0
                        ==> self.has_user(chat, key) == old(self).has_user(chat, key) && (old(
                        self,
                    ).has_user(chat, key) ==> self.model_of(chat, key) == old(self).model_of(
                        chat,
                        key,
                    )),
            decreases records@.len() - i,
        {
            proof {
                assert(records@.take(i + 1).drop_last() =~= records@.take(i as int));
                assert(records@.take(i + 1).last() == records@[i as int]);
            }
            let rec = &records[i];
            match &rec.author {
                Option::Some(author) => {
                    let uname = UserName::new(author.as_str());
                    let keep = match filter {
                        Option::Some(f) => uname.same_key(f),
                        Option::None => true,
                    };
                    if keep {
                        let mut seen = false;
                        let mut n: usize = 0;
                        while n < names.len()
                            invariant
                                n <= names@.len(),
                                forall|j: int| 0 <= j < names@.len() ==> (
                                #[trigger] names@[j]).wf(),
                                seen ==> name_listed(names@, uname.key()),
                                !seen ==> forall|j: int|
                                    0 <= j < n ==> (#[trigger] names@[j]).key() != uname.key(),
                            decreases names@.len() - n,
                        {
                            if names[n].same_key(&uname) {
                                seen = true;
                            }
                            n = n + 1;
                        }
                        let ghost pre_names = names@;
                        if !seen {
                            names.push(uname.duplicate());
                        }
                        proof {
                            if seen {
                                assert(name_listed(names@, uname.key()));
                            } else {
                                assert(names@[names@.len() - 1].key() == uname.key());
                                assert(name_listed(names@, uname.key()));
                                assert forall|n1: int, n2: int|
                                    0 <= n1 < n2 < names@.len() implies (
                                #[trigger] names@[n1]).key() != (#[trigger] names@[n2]).key() by {
                                    if n2 == names@.len() - 1 {
                                        assert(names@[n1] == pre_names[n1]);
                                    } else {
                                        assert(names@[n1] == pre_names[n1]);
                                        assert(names@[n2] == pre_names[n2]);
                                    }
                                }
                            }
                            assert forall|key: Seq<char>| name_listed(pre_names, key)
                                implies name_listed(names@, key) by {
                                let nn = choose|nn: int|
                                    0 <= nn < pre_names.len() && (#[trigger] pre_names[nn]).key()
                                        == key;
                                assert(names@[nn].key() == key);
                            }
                        }
                        match &rec.text {
                            RecordText::Plain(text) => {
                                if text.as_str().unicode_len() > 0 {
                                    let ghost mid = *self;
                                    let _t = self.feed_user_model(chat, &uname, text.as_str());
                                    self.msg_fed = self.msg_fed + 1;
                                    processed = processed + 1;
                                    proof {
                                        assert(accepted_record(records@[i as int], fkey));
                                        let k0 = uname.key();
                                        assert(fold_of(records@[i as int].author->0@) == k0);
                                        let tok = tokenize_spec(records@[i as int].text->0@);
                                        let atf_i = |key: Seq<char>|
                                            accepted_texts_for(
                                                records@.take(i as int),
                                                fkey,
                                                key,
                                            );
                                        assert(model_fed_before(mid, chat, k0) =~= model_fed_before(
                                            *old(self),
                                            chat,
                                            k0,
                                        ) + atf_i(k0));
                                        assert forall|key: Seq<char>|
                                            (#[trigger] accepted_texts_for(
                                                records@.take(i + 1),
                                                fkey,
                                                key,
                                            )).len() > 0 implies self.has_user(chat, key)
                                            && self.model_of(chat, key).fed_view()
                                            == model_fed_before(*old(self), chat, key)
                                            + accepted_texts_for(
                                            records@.take(i + 1),
                                            fkey,
                                            key,
                                        ) by {
                                            if key == k0 {
                                                assert(accepted_texts_for(
                                                    records@.take(i + 1),
                                                    fkey,
                                                    key,
                                                ) =~= atf_i(key).push(tok));
                                                assert(self.model_of(chat, k0).fed_view()
                                                    =~= model_fed_before(*old(self), chat, k0)
                                                    + atf_i(k0).push(tok));
                                            } else {
                                                assert(accepted_texts_for(
                                                    records@.take(i + 1),
                                                    fkey,
                                                    key,
                                                ) == atf_i(key));
                                            }
                                        }
                                        assert forall|key: Seq<char>|
                                            (#[trigger] accepted_texts_for(
                                                records@.take(i + 1),
                                                fkey,
                                                key,
                                            )).len() == 0 implies self.has_user(chat, key) == old(
                                            self,
                                        ).has_user(chat, key) && (old(self).has_user(chat, key)
                                            ==> self.model_of(chat, key) == old(self).model_of(
                                            chat,
                                            key,
                                        )) by {
                                            assert(key != k0);
                                            assert(accepted_texts_for(
                                                records@.take(i + 1),
                                                fkey,
                                                key,
                                            ) == atf_i(key));
                                        }
                                        assert forall|key: Seq<char>|
                                            (#[trigger] accepted_texts_for(
                                                records@.take(i + 1),
                                                fkey,
                                                key,
                                            )).len() > 0 implies name_listed(names@, key) by {
                                            if key == k0 {
                                                assert(name_listed(names@, uname.key()));
                                            } else {
                                                assert(accepted_texts_for(
                                                    records@.take(i + 1),
                                                    fkey,
                                                    key,
                                                ) == atf_i(key));
                                                assert(name_listed(pre_names, key));
                                            }
                                        }
                                    }
                                } else {
                                    proof {
                                        assert(!accepted_record(records@[i as int], fkey));
                                        lemma_atf_skip(records@, fkey, i as int);
                                    }
                                }
                            },
                            RecordText::Segments => {
                                proof {
                                    assert(!accepted_record(records@[i as int], fkey));
                                    lemma_atf_skip(records@, fkey, i as int);
                                }
                            },
                        }
                    } else {
                        proof {
                            assert(!accepted_record(records@[i as int], fkey));
                            lemma_atf_skip(records@, fkey, i as int);
                        }
                    }
                },
                Option::None => {
                    proof {
                        assert(!accepted_record(records@[i as int], fkey));
                        lemma_atf_skip(records@, fkey, i as int);
                    }
                },
            }
            i = i + 1;
        }
        proof {
            assert(records@.take(records@.len() as int) =~= records@);
        }
        let mut reqs: Vec<PersistRequest> = Vec::new();
        match filter {
            Option::Some(f) => {
                proof {
                    if processed > 0 {
                        assert(self.has_user(chat, f.key()));
                    }
                    lemma_filtered_texts_count(records@, f.key());
                    if accepted_count(records@, fkey) == 0 && !old(self).has_user(
                        chat,
                        f.key(),
                    ) {
                        assert(!self.has_user(chat, f.key()));
                    }
                }
                match self.persist_request(chat, f) {
                    Result::Ok(Option::Some(req)) => {
                        proof {
                            assert(req_for_registered(*self, chat, req));
                        }
                        reqs.push(req);
                        proof {
                            assert(reqs@[0].key@ == store_key_spec(chat, f.key()));
                            assert forall|key: Seq<char>|
                                (#[trigger] accepted_texts_for(records@, fkey, key)).len() > 0
                                implies req_listed(reqs@, chat, key) by {
                                if key == f.key() {
                                } else {
                                    lemma_filtered_texts_key(records@, f.key(), key);
                                }
                            }
                        }
                    },
                    Result::Ok(Option::None) => {
                        proof {
                            assert(!self.has_user(chat, f.key()));
                            assert(accepted_count(records@, fkey) == 0);
                            assert forall|key: Seq<char>|
                                (#[trigger] accepted_texts_for(records@, fkey, key)).len() > 0
                                implies req_listed(reqs@, chat, key) by {
                                if key != f.key() {
                                    lemma_filtered_texts_key(records@, f.key(), key);
                                }
                            }
                        }
                    },
                    Result::Err(e) => {
                        proof {
                            assert(unserializable_model(*self, chat));
                        }
                        return Err(e);
                    },
                }
            },
            Option::None => {
                let mut n: usize = 0;
                while n < names.len()
                    invariant
                        n <= names@.len(),
                        self.wf(),
                        self.config() == old(self).config(),
                        filter is None,
                        fkey is None,
                        processed == accepted_count(records@, fkey),
                        forall|c: i64| self.is_hydrated(c) == old(self).is_hydrated(c),
                        self.fed_count() == old(self).fed_count() + accepted_count(records@, fkey),
                        forall|c: i64, key: Seq<char>|
                            c != chat ==> self.has_user(c, key) == old(self).has_user(c, key),
                        forall|c: i64, key: Seq<char>|
                            c != chat && old(self).has_user(c, key) ==> self.model_of(c, key)
                                == old(self).model_of(c, key),
                        forall|key: Seq<char>|
                            (#[trigger] accepted_texts_for(records@, fkey, key)).len() > 0
                                ==> self.has_user(chat, key) && self.model_of(chat, key).fed_view()
                                == model_fed_before(*old(self), chat, key) + accepted_texts_for(
                                records@,
                                fkey,
                                key,
                            ),
                        forall|key: Seq<char>|
                            (#[trigger] accepted_texts_for(records@, fkey, key)).len() == 0
                                ==> self.has_user(chat, key) == old(self).has_user(chat, key) && (
                            old(self).has_user(chat, key) ==> self.model_of(chat, key) == old(
                                self,
                            ).model_of(chat, key)),
                        forall|q: int|
                            0 <= q < reqs@.len() ==> req_for_registered(
                                *self,
                                chat,
                                #[trigger] reqs@[q],
                            ),
                        forall|n1: int, n2: int|
                            0 <= n1 < n2 < names@.len() ==> (#[trigger] names@[n1]).key() != (
                            #[trigger] names@[n2]).key(),
                        forall|key: Seq<char>|
                            (#[trigger] accepted_texts_for(records@, fkey, key)).len() > 0
                                ==> name_listed(names@, key),
                        forall|idx: int|
                            0 <= idx < n && self.has_user(chat, (#[trigger] names@[idx]).key())
                                ==> req_listed(reqs@, chat, names@[idx].key()),
                        forall|q: int|
                            0 <= q < reqs@.len() ==> exists|idx: int|
                                0 <= idx < n && (#[trigger] reqs@[q]).key@ == store_key_spec(
                                    chat,
                                    names@[idx].key(),
                                ),
                        forall|q1: int, q2: int|
                            0 <= q1 < q2 < reqs@.len() ==> (#[trigger] reqs@[q1]).key@ != (
                            #[trigger] reqs@[q2]).key@,
                    decreases names@.len() - n,
                {
                    let ghost pre_reqs = reqs@;
                    match self.persist_request(chat, &names[n]) {
                        Result::Ok(Option::Some(req)) => {
                            proof {
                                assert(req_for_registered(*self, chat, req));
                                assert(req.key@ == store_key_spec(chat, names@[n as int].key()));
                            }
                            reqs.push(req);
                            proof {
                                assert forall|idx: int|
                                    0 <= idx < n + 1 && self.has_user(
                                    chat,
                                    (#[trigger] names@[idx]).key(),
                                ) implies req_listed(reqs@, chat, names@[idx].key()) by {
                                    if idx == n {
                                        assert(reqs@[reqs@.len() - 1].key@ == store_key_spec(
                                            chat,
                                            names@[idx].key(),
                                        ));
                                    } else {
                                        let qq = choose|qq: int|
                                            0 <= qq < pre_reqs.len() && (
                                            #[trigger] pre_reqs[qq]).key@ == store_key_spec(
                                                chat,
                                                names@[idx].key(),
                                            );
                                        assert(reqs@[qq].key@ == store_key_spec(
                                            chat,
                                            names@[idx].key(),
                                        ));
                                    }
                                }
                                assert forall|q: int| 0 <= q < reqs@.len() implies exists|idx: int|
                                    0 <= idx < n + 1 && (#[trigger] reqs@[q]).key@
                                        == store_key_spec(chat, names@[idx].key()) by {
                                    if q == reqs@.len() - 1 {
                                        assert(reqs@[q].key@ == store_key_spec(
                                            chat,
                                            names@[n as int].key(),
                                        ));
                                    } else {
                                        assert(reqs@[q] == pre_reqs[q]);
                                    }
                                }
                                assert forall|q1: int, q2: int|
                                    0 <= q1 < q2 < reqs@.len() implies (
                                #[trigger] reqs@[q1]).key@ != (#[trigger] reqs@[q2]).key@ by {
                                    if q2 == reqs@.len() - 1 {
                                        assert(reqs@[q1] == pre_reqs[q1]);
                                        let idx1 = choose|idx: int|
                                            0 <= idx < n && (#[trigger] pre_reqs[q1]).key@
                                                == store_key_spec(chat, names@[idx].key());
                                        if reqs@[q1].key@ == reqs@[q2].key@ {
                                            lemma_store_key_injective(
                                                chat,
                                                names@[idx1].key(),
                                                names@[n as int].key(),
                                            );
                                        }
                                    } else {
                                        assert(reqs@[q1] == pre_reqs[q1]);
                                        assert(reqs@[q2] == pre_reqs[q2]);
                                    }
                                }
                            }
                        },
                        Result::Ok(Option::None) => {
                            proof {
                                assert(!self.has_user(chat, names@[n as int].key()));
                            }
                        },
                        Result::Err(e) => {
                            proof {
                                assert(unserializable_model(*self, chat));
                            }
                            return Err(e);
                        },
                    }
                    n = n + 1;
                }
                proof {
                    assert forall|key: Seq<char>|
                        (#[trigger] accepted_texts_for(records@, fkey, key)).len() > 0
                        implies req_listed(reqs@, chat, key) by {
                        let idx = choose|idx: int|
                            0 <= idx < names@.len() && (#[trigger] names@[idx]).key() == key;
                        assert(self.has_user(chat, names@[idx].key()));
                        assert(req_listed(reqs@, chat, names@[idx].key()));
                    }
                }
            },
        }
        Ok((processed, reqs))
    }

    /// Picks a user at random among those with a model in the chat;
    /// nothing when the chat has none.
    pub fn choose_user(&self, chat: i64) -> (r: Option<UserName>)
        requires
            self.wf(),
        ensures
            r is None <==> self.user_count(chat) == 0,
            r matches Some(u) ==> u.wf() && self.has_user(chat, u.key()),
    {
        let ci: usize = match self.find_chat_idx(chat) {
            Option::Some(i) => i,
            Option::None => {
                return None;
            },
        };
        proof {
            lemma_chat_entry_at(*self, chat, ci as int);
        }
        let users = &self.chats[ci].users;
        if users.len() == 0 {
            return None;
        }
        let pick = crate::rng::random_below(users.len());
        proof {
            lemma_user_entry_at(*self, chat, pick as int);
        }
        Some(users[pick].name.duplicate())
    }

    /// Looks up the model of a registered pair.
    fn model_ref(&self, chat: i64, user: &UserName) -> (r: Option<&Chains>)
        requires
            self.wf(),
        ensures
            r is Some <==> self.has_user(chat, user.key()),
            r matches Some(m) ==> *m == self.model_of(chat, user.key()) && m.inv(),
    {
        let ci: usize = match self.find_chat_idx(chat) {
            Option::Some(i) => i,
            Option::None => {
                return None;
            },
        };
        proof {
            lemma_chat_entry_at(*self, chat, ci as int);
        }
        let users = &self.chats[ci].users;
        let mut u: usize = 0;
        while u < users.len()
            invariant
                u <= users@.len(),
                self.wf(),
                self.has_chat(chat),
                users@ == self.chat_entry(chat).users@,
                forall|j: int| 0 <= j < u ==> (#[trigger] users@[j]).name.key() != user.key(),
            decreases users@.len() - u,
        {
            if users[u].name.same_key(user) {
                proof {
                    lemma_user_entry_at(*self, chat, u as int);
                }
                return Some(&users[u].model);
            }
            u = u + 1;
        }
        None
    }

    /// Up to the configured retry budget: picks a random user, asks
    /// that user's model for a novel continuation of `token` at
    /// `order`, and accepts it only under the configured reply
    /// length.  Nothing to say — no users, or no acceptable candidate
    /// within the budget — is a normal empty outcome.
    pub fn gen_from_token(&self, chat: i64, token: &str, order: usize) -> (r: Option<
        (UserName, String),
    >)
        requires
            self.wf(),
            self.chat_gen_ready(chat),
        ensures
            self.user_count(chat) == 0 ==> r is None,
            r matches Some(p) ==> p.0.wf() && exists|toks: Seq<Seq<char>>|
                self.seeded_reply(chat, p.0.key(), order, toks, p.1@, token@),
    {
        let mut attempt: usize = 0;
        while attempt < self.settings.max_gen_retries
            invariant
                self.wf(),
                self.chat_gen_ready(chat),
            decreases self.settings.max_gen_retries - attempt,
        {
            let name = match self.choose_user(chat) {
                Option::Some(n) => n,
                Option::None => {
                    return None;
                },
            };
            let model = match self.model_ref(chat, &name) {
                Option::Some(m) => m,
                Option::None => {
                    return None;
                },
            };
            proof {
                assert(self.model_of(chat, name.key()).gen_ready());
            }
            let mut results = model.gen_from_token(token);
            let mut q: usize = 0;
            while q < results.len()
                invariant
                    q <= results@.len(),
                    self.wf(),
                    self.has_user(chat, name.key()),
                    name.wf(),
                    forall|k: int|
                        0 <= k < results@.len() ==> {
                            let m = self.model_of(chat, name.key());
                            &&& !m.knows((#[trigger] results@[k]).1.deep_view())
                            &&& m.min_ord() <= (results@[k]).0 <= m.max_ord()
                            &&& !chain_empty(m.order_chain((results@[k]).0 - m.min_ord()))
                            &&& (results@[k]).1@.len() > 0
                            &&& (results@[k]).1@[0]@ == token@
                        },
                decreases results@.len() - q,
            {
                if results[q].0 == order {
                    let ghost cand = results@[q as int];
                    proof {
                        let m = self.model_of(chat, name.key());
                        assert(!m.knows(cand.1.deep_view()));
                        assert(m.min_ord() <= cand.0 <= m.max_ord());
                        assert(!chain_empty(m.order_chain(cand.0 - m.min_ord())));
                        assert(cand.1@.len() > 0 && cand.1@[0]@ == token@);
                    }
                    let entry = results.swap_remove(q);
                    let toks = entry.1;
                    if toks.len() < self.settings.max_reply_tokens {
                        let text = crate::text::join_tokens(&toks);
                        let res: Option<(UserName, String)> = Some((name, text));
                        proof {
                            let t = toks.deep_view();
                            let pr = res->0;
                            assert(entry == cand);
                            assert(t.len() == toks@.len());
                            assert(t.len() > 0 ==> t[0] == toks@[0]@);
                            assert(toks@.len() > 0 && toks@[0]@ == token@);
                            assert(self.seeded_reply(chat, pr.0.key(), order, t, pr.1@, token@));
                            assert(exists|t2: Seq<Seq<char>>|
                                self.seeded_reply(chat, pr.0.key(), order, t2, pr.1@, token@));
                        }
                        return res;
                    }
                    break ;
                }
                q = q + 1;
            }
            attempt = attempt + 1;
        }
        None
    }

    /// Up to the configured retry budget: picks a random user, asks
    /// that user's model for a novel sequence from its start state at
    /// `order`, and accepts it only under the configured reply
    /// length.  Nothing to say is a normal empty outcome.
    pub fn gen_from_empty(&self, chat: i64, order: usize) -> (r: Option<(UserName, String)>)
        requires
            self.wf(),
            self.chat_gen_ready(chat),
        ensures
            self.user_count(chat) == 0 ==> r is None,
            r matches Some(p) ==> p.0.wf() && exists|toks: Seq<Seq<char>>|
                self.novel_reply(chat, p.0.key(), order, toks, p.1@),
    {
        let mut attempt: usize = 0;
        while attempt < self.settings.max_gen_retries
            invariant
                self.wf(),
                self.chat_gen_ready(chat),
            decreases self.settings.max_gen_retries - attempt,
        {
            let name = match self.choose_user(chat) {
                Option::Some(n) => n,
                Option::None => {
                    return None;
                },
            };
            let model = match self.model_ref(chat, &name) {
                Option::Some(m) => m,
                Option::None => {
                    return None;
                },
            };
            proof {
                assert(self.model_of(chat, name.key()).gen_ready());
            }
            let mut results = model.gen_from_empty();
            let mut q: usize = 0;
            while q < results.len()
                invariant
                    q <= results@.len(),
                    self.wf(),
                    self.has_user(chat, name.key()),
                    name.wf(),
                    forall|k: int|
                        0 <= k < results@.len() ==> {
                            let m = self.model_of(chat, name.key());
                            &&& !m.knows((#[trigger] results@[k]).1.deep_view())
                            &&& m.min_ord() <= (results@[k]).0 <= m.max_ord()
                            &&& !chain_empty(m.order_chain((results@[k]).0 - m.min_ord()))
                            &&& (results@[k]).1@.len() > 0
                        },
                decreases results@.len() - q,
            {
                if results[q].0 == order {
                    let ghost cand = results@[q as int];
                    proof {
                        let m = self.model_of(chat, name.key());
                        assert(!m.knows(cand.1.deep_view()));
                        assert(m.min_ord() <= cand.0 <= m.max_ord());
                        assert(!chain_empty(m.order_chain(cand.0 - m.min_ord())));
                        assert(cand.1@.len() > 0);
                    }
                    let entry = results.swap_remove(q);
                    let toks = entry.1;
                    if toks.len() < self.settings.max_reply_tokens {
                        let text = crate::text::join_tokens(&toks);
                        let res: Option<(UserName, String)> = Some((name, text));
                        proof {
                            let t = toks.deep_view();
                            let pr = res->0;
                            assert(entry == cand);
                            assert(t.len() == toks@.len());
                            assert(self.novel_reply(chat, pr.0.key(), order, t, pr.1@));
                            assert(exists|t2: Seq<Seq<char>>|
                                self.novel_reply(chat, pr.0.key(), order, t2, pr.1@));
                        }
                        return res;
                    }
                    break ;
                }
                q = q + 1;
            }
            attempt = attempt + 1;
        }
        None
    }
}

/// Novelty law at the registry level: a reply the generators may
/// surface never matches, case-folded, any contiguous sub-sequence of
/// any text ever fed into the chosen user's model.
pub proof fn lemma_reply_is_novel(
    b: Brain,
    chat: i64,
    key: Seq<char>,
    order: usize,
    toks: Seq<Seq<char>>,
    text: Seq<char>,
    si: int,
    i: int,
    j: int,
)
    requires
        b.wf(),
        b.novel_reply(chat, key, order, toks, text),
        0 <= si < b.model_of(chat, key).fed_view().len(),
        0 <= i < j <= b.model_of(chat, key).fed_view()[si].len(),
    ensures
        crate::text::fold_words(toks) != crate::text::fold_words(
            b.model_of(chat, key).fed_view()[si],
        ).subrange(i, j),
{
    let k = choose|k: int| 0 <= k < b.chats@.len() && (#[trigger] b.chats@[k]).chat == chat;
    assert(Brain::users_ok(b.chats@[k].users@));
    let u = choose|u: int|
        0 <= u < b.chat_entry(chat).users@.len() && (#[trigger] b.chat_entry(
            chat,
        ).users@[u]).name.key() == key;
    assert(b.model_of(chat, key).inv());
    b.model_of(chat, key).lemma_novel_not_fed(toks, si, i, j);
}

/// Cadence law: starting from a feed count that is a multiple of the
/// persistence frequency, of the next `freq` feeds exactly the last
/// one lands on a multiple again — so exactly one write-through is
/// due per window of `freq` persisting feeds.
pub proof fn lemma_persist_cadence(count: u64, freq: u64, k: u64)
    requires
        freq >= 1,
        count % freq == 0,
        1 <= k <= freq,
        count + k <= u64::MAX,
    ensures
        (((count + k) as int) % (freq as int) == 0) <==> (k == freq),
{
    vstd::arithmetic::div_mod::lemma_add_mod_noop(count as int, k as int, freq as int);
    vstd::arithmetic::div_mod::lemma_mod_self_0(freq as int);
    vstd::arithmetic::div_mod::lemma_mod_twice(k as int, freq as int);
    if k < freq {
        vstd::arithmetic::div_mod::lemma_small_mod(k as nat, freq as nat);
    }
}

/// After an update of the chat list at `ci` (whose entry keeps the
/// chat id `chat`), every other chat resolves as before.
proof fn lemma_frame_chat(pre: Brain, post: Brain, ci: int, chat: i64, c: i64)
    requires
        pre.wf(),
        post.wf(),
        0 <= ci < pre.chats@.len(),
        post.chats@.len() == pre.chats@.len(),
        pre.chats@[ci].chat == chat,
        post.chats@[ci].chat == chat,
        forall|k: int| 0 <= k < pre.chats@.len() && k != ci ==> post.chats@[k] == pre.chats@[k],
        c != chat,
    ensures
        post.has_chat(c) == pre.has_chat(c),
        pre.has_chat(c) ==> post.chat_entry(c) == pre.chat_entry(c),
{
    if pre.has_chat(c) {
        let k = choose|k: int| 0 <= k < pre.chats@.len() && (#[trigger] pre.chats@[k]).chat == c;
        assert(k != ci);
        assert(post.chats@[k].chat == c);
        lemma_chat_entry_at(post, c, k);
        lemma_chat_entry_at(pre, c, k);
    }
    if post.has_chat(c) {
        let k = choose|k: int| 0 <= k < post.chats@.len() && (#[trigger] post.chats@[k]).chat == c;
        assert(k != ci);
        assert(pre.chats@[k].chat == c);
    }
}

/// After a chat entry is appended, every other chat resolves as
/// before.
proof fn lemma_frame_push_chat(pre: Brain, post: Brain, chat: i64, c: i64)
    requires
        pre.wf(),
        post.wf(),
        post.chats@.len() == pre.chats@.len() + 1,
        post.chats@[post.chats@.len() - 1].chat == chat,
        forall|k: int| 0 <= k < pre.chats@.len() ==> post.chats@[k] == pre.chats@[k],
        c != chat,
    ensures
        post.has_chat(c) == pre.has_chat(c),
        pre.has_chat(c) ==> post.chat_entry(c) == pre.chat_entry(c),
{
    if pre.has_chat(c) {
        let k = choose|k: int| 0 <= k < pre.chats@.len() && (#[trigger] pre.chats@[k]).chat == c;
        assert(post.chats@[k].chat == c);
        lemma_chat_entry_at(post, c, k);
        lemma_chat_entry_at(pre, c, k);
    }
    if post.has_chat(c) {
        let k = choose|k: int| 0 <= k < post.chats@.len() && (#[trigger] post.chats@[k]).chat == c;
        assert(k < pre.chats@.len());
        assert(pre.chats@[k].chat == c);
    }
}

/// Two registries that resolve a chat to the same entry resolve every
/// user of that chat identically.
proof fn lemma_same_chat_users(pre: Brain, post: Brain, c: i64)
    requires
        pre.wf(),
        post.wf(),
        pre.has_chat(c),
        post.has_chat(c),
        post.chat_entry(c) == pre.chat_entry(c),
    ensures
        forall|kk: Seq<char>| post.has_user(c, kk) == pre.has_user(c, kk),
        forall|kk: Seq<char>|
            pre.has_user(c, kk) ==> post.user_entry(c, kk) == pre.user_entry(c, kk),
{
    let users = pre.chat_entry(c).users@;
    let k = choose|k: int| 0 <= k < pre.chats@.len() && (#[trigger] pre.chats@[k]).chat == c;
    assert(Brain::users_ok(users)) by {
        lemma_chat_entry_at(pre, c, k);
    }
    assert forall|kk: Seq<char>| post.has_user(c, kk) == pre.has_user(c, kk) by {
    }
    assert forall|kk: Seq<char>| pre.has_user(c, kk) implies post.user_entry(c, kk)
        == pre.user_entry(c, kk) by {
        let u1 = choose|u: int|
            0 <= u < pre.chat_entry(c).users@.len() && (#[trigger] pre.chat_entry(
                c,
            ).users@[u]).name.key() == kk;
        let u2 = choose|u: int|
            0 <= u < post.chat_entry(c).users@.len() && (#[trigger] post.chat_entry(
                c,
            ).users@[u]).name.key() == kk;
        if u1 != u2 {
            assert(users[u1].name.key() == users[u2].name.key());
        }
    }
}

/// After a user list changes only at `upos` (whose entry keeps the
/// key `key`) or grows by `key` at its end, every other key resolves
/// as before.
proof fn lemma_frame_users(
    pre_users: Seq<UserEntry>,
    post_users: Seq<UserEntry>,
    upos: int,
    key: Seq<char>,
    kk: Seq<char>,
)
    requires
        0 <= upos < post_users.len(),
        pre_users.len() == post_users.len() || pre_users.len() + 1 == post_users.len(),
        post_users[upos].name.key() == key,
        upos < pre_users.len() ==> pre_users.len() == post_users.len() && pre_users[
            upos
        ].name.key() == key,
        forall|j: int| 0 <= j < post_users.len() && j != upos ==> post_users[j] == pre_users[j],
        kk != key,
    ensures
        (exists|u: int| 0 <= u < post_users.len() && (#[trigger] post_users[u]).name.key() == kk)
            == (exists|u: int|
            0 <= u < pre_users.len() && (#[trigger] pre_users[u]).name.key() == kk),
{
    if exists|u: int| 0 <= u < post_users.len() && (#[trigger] post_users[u]).name.key() == kk {
        let u = choose|u: int|
            0 <= u < post_users.len() && (#[trigger] post_users[u]).name.key() == kk;
        assert(u != upos);
        assert(pre_users[u].name.key() == kk);
    }
    if exists|u: int| 0 <= u < pre_users.len() && (#[trigger] pre_users[u]).name.key() == kk {
        let u = choose|u: int|
            0 <= u < pre_users.len() && (#[trigger] pre_users[u]).name.key() == kk;
        assert(u != upos);
        assert(post_users[u].name.key() == kk);
    }
}

/// If the chats are uniquely keyed and index `k` holds `chat`, the
/// entry the specs pick is exactly that index's entry.
proof fn lemma_chat_entry_at(b: Brain, chat: i64, k: int)
    requires
        b.wf(),
        0 <= k < b.chats@.len(),
        b.chats@[k].chat == chat,
    ensures
        b.has_chat(chat),
        b.chat_entry(chat) == b.chats@[k],
{
    assert(b.has_chat(chat));
    let j = choose|j: int| 0 <= j < b.chats@.len() && (#[trigger] b.chats@[j]).chat == chat;
    if j != k {
        assert(b.chats@[j].chat == b.chats@[k].chat);
    }
}

/// If the users of a chat are uniquely keyed and index `u` holds
/// `key`, the entry the specs pick is exactly that index's entry.
proof fn lemma_user_entry_at(b: Brain, chat: i64, u: int)
    requires
        b.wf(),
        b.has_chat(chat),
        0 <= u < b.chat_entry(chat).users@.len(),
    ensures
        b.has_user(chat, b.chat_entry(chat).users@[u].name.key()),
        b.user_entry(chat, b.chat_entry(chat).users@[u].name.key()) == b.chat_entry(
            chat,
        ).users@[u],
{
    let key = b.chat_entry(chat).users@[u].name.key();
    assert(b.has_user(chat, key));
    let k = choose|k: int| 0 <= k < b.chats@.len() && (#[trigger] b.chats@[k]).chat == chat;
    assert(Brain::users_ok(b.chats@[k].users@));
    let j = choose|j: int|
        0 <= j < b.chat_entry(chat).users@.len() && (#[trigger] b.chat_entry(chat).users@[j]).name.key()
            == key;
    if j != u {
        assert(b.chat_entry(chat).users@[j].name.key() == b.chat_entry(chat).users@[u].name.key());
    }
}

/// Builds the store key `"{chat}_{folded name}"` of a model.
pub fn store_key(chat: i64, user: &UserName) -> (r: String)
    ensures
        r@ == store_key_spec(chat, user.key()),
{
    let mut cs: Vec<char> = Vec::new();
    push_dec_i64(&mut cs, chat);
    cs.push('_');
    let mut name_chars = chars_of(user.key_str());
    cs.append(&mut name_chars);
    proof {
        assert(cs@ =~= store_key_spec(chat, user.key()));
    }
    string_from_chars(&cs)
}

/// Builds the store scan pattern `"{chat}*"` of a chat.
pub fn scan_pattern(chat: i64) -> (r: String)
    ensures
        r@ == scan_pattern_spec(chat),
{
    let mut cs: Vec<char> = Vec::new();
    push_dec_i64(&mut cs, chat);
    cs.push('*');
    proof {
        assert(cs@ =~= scan_pattern_spec(chat));
    }
    string_from_chars(&cs)
}

/// Recovers the folded user name from a store key: the part after the
/// first `_`, folded.
pub fn parse_key_user(key: &str) -> (r: Option<UserName>)
    ensures
        r is Some <==> key_user_part(key@) is Some,
        r is Some ==> r->0.wf() && r->0.key() == fold_of(key_user_part(key@)->0),
{
    let cs = chars_of(key);
    proof {
        assert(key@.skip(0) =~= key@);
    }
    let mut k: usize = 0;
    while k < cs.len()
        invariant
            k <= cs@.len(),
            cs@ == key@,
            key_user_part(key@) == key_user_part(key@.skip(k as int)),
            forall|j: int| 0 <= j < k ==> key@[j] != '_',
        decreases cs@.len() - k,
    {
        proof {
            assert(key@.skip(k as int)[0] == key@[k as int]);
            assert(key@.skip(k as int).drop_first() =~= key@.skip(k + 1));
        }
        if cs[k] == '_' {
            let mut rest: Vec<char> = Vec::new();
            let mut j: usize = k + 1;
            while j < cs.len()
                invariant
                    k + 1 <= j <= cs@.len(),
                    cs@ == key@,
                    rest@ == key@.subrange(k + 1, j as int),
                decreases cs@.len() - j,
            {
                rest.push(cs[j]);
                proof {
                    assert(rest@ =~= key@.subrange(k + 1, j + 1));
                }
                j = j + 1;
            }
            proof {
                assert(key@.subrange(k + 1, key@.len() as int) =~= key@.skip(k as int).drop_first());
            }
            let tail = string_from_chars(&rest);
            return Some(UserName::new(tail.as_str()));
        }
        k = k + 1;
    }
    proof {
        assert(key@.skip(key@.len() as int) =~= Seq::<char>::empty());
    }
    None
}

} // verus!
