//! The snapshot wire format.
//!
//! A model snapshot is one text: the minimum and maximum order, one
//! length-prefixed chain blob per order, then the count of dedup
//! digests followed by the digests themselves.  Every number is
//! sixteen fixed hex digits (`numbers::hex16`), and blobs are prefixed
//! by their character count, so the format needs no separators and no
//! escaping.  Decoding is the exact inverse of encoding.

use vstd::prelude::*;

use crate::numbers::{hex16, parse_hex16, push_hex16, read_hex16, lemma_hex16_round_trip};
use crate::strutil::chars_of;

verus! {

/// The encoding of the chain blobs, one length-prefixed blob each.
pub open spec fn enc_blobs(bs: Seq<Seq<char>>) -> Seq<char>
    decreases bs.len(),
{
    if bs.len() == 0 {
        Seq::empty()
    } else {
        hex16(bs[0].len() as u64) + bs[0] + enc_blobs(bs.drop_first())
    }
}

/// The encoding of the dedup digests.
pub open spec fn enc_digests(ds: Seq<u64>) -> Seq<char>
    decreases ds.len(),
{
    if ds.len() == 0 {
        Seq::empty()
    } else {
        hex16(ds[0]) + enc_digests(ds.drop_first())
    }
}

/// The full snapshot text of a model state.
pub open spec fn encode_spec(min: u64, max: u64, bs: Seq<Seq<char>>, ds: Seq<u64>) -> Seq<char> {
    hex16(min) + hex16(max) + enc_blobs(bs) + hex16(ds.len() as u64) + enc_digests(ds)
}

/// The states a snapshot can encode: a non-empty order range that fits
/// the machine, one blob per order, and blob sizes a length prefix can
/// carry.
pub open spec fn snapshot_wf(min: u64, max: u64, bs: Seq<Seq<char>>, ds: Seq<u64>) -> bool {
    &&& 1 <= min <= max
    &&& max <= usize::MAX as u64
    &&& bs.len() == max - min + 1
    &&& forall|k: int| 0 <= k < bs.len() ==> (#[trigger] bs[k]).len() <= u64::MAX
    &&& ds.len() <= u64::MAX
}

/// Reads one sixteen-digit number at `off`.
pub open spec fn take_hex(s: Seq<char>, off: int) -> Option<u64> {
    if 0 <= off && off + 16 <= s.len() {
        parse_hex16(s.subrange(off, off + 16))
    } else {
        None
    }
}

/// Reads `n` length-prefixed blobs starting at `off`; yields the blobs
/// and the offset just past them.
pub open spec fn dec_blobs(s: Seq<char>, off: int, n: nat) -> Option<(Seq<Seq<char>>, int)>
    decreases n,
{
    if n == 0 {
        Some((Seq::empty(), off))
    } else {
        match take_hex(s, off) {
            Option::None => None,
            Option::Some(l) => {
                if off + 16 + l <= s.len() {
                    let blob = s.subrange(off + 16, off + 16 + l);
                    match dec_blobs(s, off + 16 + l, (n - 1) as nat) {
                        Option::None => None,
                        Option::Some((bs, end)) => Some((seq![blob] + bs, end)),
                    }
                } else {
                    None
                }
            },
        }
    }
}

/// Reads `n` digests starting at `off`.
pub open spec fn dec_digests(s: Seq<char>, off: int, n: nat) -> Option<(Seq<u64>, int)>
    decreases n,
{
    if n == 0 {
        Some((Seq::empty(), off))
    } else {
        match take_hex(s, off) {
            Option::None => None,
            Option::Some(d) => match dec_digests(s, off + 16, (n - 1) as nat) {
                Option::None => None,
                Option::Some((ds, end)) => Some((seq![d] + ds, end)),
            },
        }
    }
}

/// Reads a whole snapshot text back into the state it encodes; `None`
/// on anything that is not exactly an encoding of a well-formed state.
pub open spec fn decode_spec(s: Seq<char>) -> Option<(u64, u64, Seq<Seq<char>>, Seq<u64>)> {
    match take_hex(s, 0) {
        Option::None => None,
        Option::Some(min) => match take_hex(s, 16) {
            Option::None => None,
            Option::Some(max) => {
                if 1 <= min && min <= max && max <= usize::MAX as u64 {
                    match dec_blobs(s, 32, (max - min + 1) as nat) {
                        Option::None => None,
                        Option::Some((bs, off2)) => match take_hex(s, off2) {
                            Option::None => None,
                            Option::Some(cnt) => match dec_digests(s, off2 + 16, cnt as nat) {
                                Option::None => None,
                                Option::Some((ds, end)) => {
                                    if end == s.len() {
                                        Some((min, max, bs, ds))
                                    } else {
                                        None
                                    }
                                },
                            },
                        },
                    }
                } else {
                    None
                }
            },
        },
    }
}

/// Appending a blob to the list appends its encoding.
pub proof fn lemma_enc_blobs_snoc(bs: Seq<Seq<char>>, b: Seq<char>)
    ensures
        enc_blobs(bs.push(b)) == enc_blobs(bs) + hex16(b.len() as u64) + b,
    decreases bs.len(),
{
    if bs.len() == 0 {
        assert(bs.push(b)[0] == b);
        assert(bs.push(b).drop_first() =~= Seq::<Seq<char>>::empty());
        assert(enc_blobs(Seq::<Seq<char>>::empty()) =~= Seq::<char>::empty());
        assert(enc_blobs(bs.push(b)) =~= enc_blobs(bs) + hex16(b.len() as u64) + b);
    } else {
        lemma_enc_blobs_snoc(bs.drop_first(), b);
        assert(bs.push(b).drop_first() =~= bs.drop_first().push(b));
        assert(bs.push(b)[0] == bs[0]);
        assert(enc_blobs(bs.push(b)) =~= enc_blobs(bs) + hex16(b.len() as u64) + b);
    }
}

/// Appending a digest to the list appends its encoding.
pub proof fn lemma_enc_digests_snoc(ds: Seq<u64>, d: u64)
    ensures
        enc_digests(ds.push(d)) == enc_digests(ds) + hex16(d),
    decreases ds.len(),
{
    if ds.len() == 0 {
        assert(ds.push(d)[0] == d);
        assert(ds.push(d).drop_first() =~= Seq::<u64>::empty());
        assert(enc_digests(Seq::<u64>::empty()) =~= Seq::<char>::empty());
        assert(enc_digests(ds.push(d)) =~= enc_digests(ds) + hex16(d));
    } else {
        lemma_enc_digests_snoc(ds.drop_first(), d);
        assert(ds.push(d).drop_first() =~= ds.drop_first().push(d));
        assert(ds.push(d)[0] == ds[0]);
        assert(enc_digests(ds.push(d)) =~= enc_digests(ds) + hex16(d));
    }
}

/// A successful blob parse yields exactly the asked-for count.
pub proof fn lemma_dec_blobs_len(s: Seq<char>, off: int, n: nat)
    ensures
        dec_blobs(s, off, n) matches Some(p) ==> p.0.len() == n,
    decreases n,
{
    if n > 0 {
        match take_hex(s, off) {
            Option::None => {
            }
            Option::Some(l) => {
                if off + 16 + l <= s.len() {
                    lemma_dec_blobs_len(s, off + 16 + l, (n - 1) as nat);
                }
            }
        }
    }
}

/// A blob list encoded at `off` inside a larger text decodes back to
/// exactly that list.
proof fn lemma_dec_blobs_round(s: Seq<char>, off: int, bs: Seq<Seq<char>>)
    requires
        0 <= off,
        off + enc_blobs(bs).len() <= s.len(),
        s.subrange(off, off + enc_blobs(bs).len()) == enc_blobs(bs),
        forall|k: int| 0 <= k < bs.len() ==> (#[trigger] bs[k]).len() <= u64::MAX,
    ensures
        dec_blobs(s, off, bs.len()) == Some((bs, off + enc_blobs(bs).len())),
    decreases bs.len(),
{
    if bs.len() > 0 {
        let b = bs[0];
        let l = b.len() as int;
        let e = enc_blobs(bs);
        assert(e == hex16(b.len() as u64) + b + enc_blobs(bs.drop_first()));
        assert(s.subrange(off, off + 16) =~= hex16(b.len() as u64)) by {
            assert forall|k: int| 0 <= k < 16 implies #[trigger] s.subrange(off, off + 16)[k] == hex16(
                b.len() as u64,
            )[k] by {
                assert(s.subrange(off, off + e.len())[k] == e[k]);
            }
        }
        lemma_hex16_round_trip(b.len() as u64);
        assert(take_hex(s, off) == Some(b.len() as u64));
        assert(s.subrange(off + 16, off + 16 + l) =~= b) by {
            assert forall|k: int| 0 <= k < l implies #[trigger] s.subrange(off + 16, off + 16 + l)[k]
                == b[k] by {
                assert(s.subrange(off, off + e.len())[16 + k] == e[16 + k]);
                assert(e[16 + k] == b[k]);
            }
        }
        let rest = enc_blobs(bs.drop_first());
        assert(s.subrange(off + 16 + l, off + 16 + l + rest.len()) =~= rest) by {
            assert forall|k: int| 0 <= k < rest.len() implies #[trigger] s.subrange(
                off + 16 + l,
                off + 16 + l + rest.len() as int,
            )[k] == rest[k] by {
                assert(s.subrange(off, off + e.len())[16 + l + k] == e[16 + l + k]);
                assert(e[16 + l + k] == rest[k]);
            }
        }
        lemma_dec_blobs_round(s, off + 16 + l, bs.drop_first());
        assert(seq![b] + bs.drop_first() =~= bs);
    }
}

/// A digest list encoded at `off` inside a larger text decodes back to
/// exactly that list.
proof fn lemma_dec_digests_round(s: Seq<char>, off: int, ds: Seq<u64>)
    requires
        0 <= off,
        off + enc_digests(ds).len() <= s.len(),
        s.subrange(off, off + enc_digests(ds).len()) == enc_digests(ds),
    ensures
        dec_digests(s, off, ds.len()) == Some((ds, off + enc_digests(ds).len())),
    decreases ds.len(),
{
    if ds.len() > 0 {
        let d = ds[0];
        let e = enc_digests(ds);
        assert(e == hex16(d) + enc_digests(ds.drop_first()));
        assert(s.subrange(off, off + 16) =~= hex16(d)) by {
            assert forall|k: int| 0 <= k < 16 implies #[trigger] s.subrange(off, off + 16)[k] == hex16(d)[k] by {
                assert(s.subrange(off, off + e.len())[k] == e[k]);
            }
        }
        lemma_hex16_round_trip(d);
        let rest = enc_digests(ds.drop_first());
        assert(s.subrange(off + 16, off + 16 + rest.len()) =~= rest) by {
            assert forall|k: int| 0 <= k < rest.len() implies #[trigger] s.subrange(
                off + 16,
                off + 16 + rest.len() as int,
            )[k] == rest[k] by {
                assert(s.subrange(off, off + e.len())[16 + k] == e[16 + k]);
                assert(e[16 + k] == rest[k]);
            }
        }
        lemma_dec_digests_round(s, off + 16, ds.drop_first());
        assert(seq![d] + ds.drop_first() =~= ds);
    }
}

/// Decoding is the exact inverse of encoding on well-formed states.
pub proof fn lemma_snapshot_round_trip(min: u64, max: u64, bs: Seq<Seq<char>>, ds: Seq<u64>)
    requires
        snapshot_wf(min, max, bs, ds),
    ensures
        decode_spec(encode_spec(min, max, bs, ds)) == Some((min, max, bs, ds)),
{
    let s = encode_spec(min, max, bs, ds);
    let eb = enc_blobs(bs);
    let ed = enc_digests(ds);
    assert(s.subrange(0, 16) =~= hex16(min));
    assert(s.subrange(16, 32) =~= hex16(max));
    lemma_hex16_round_trip(min);
    lemma_hex16_round_trip(max);
    assert(s.subrange(32, 32 + eb.len() as int) =~= eb);
    lemma_dec_blobs_round(s, 32, bs);
    let off2 = 32 + eb.len() as int;
    assert(s.subrange(off2, off2 + 16) =~= hex16(ds.len() as u64));
    lemma_hex16_round_trip(ds.len() as u64);
    assert(s.subrange(off2 + 16, off2 + 16 + ed.len()) =~= ed);
    lemma_dec_digests_round(s, off2 + 16, ds);
    assert(off2 + 16 + ed.len() == s.len());
}

/// Builds the snapshot text of a model state.
pub fn encode_snapshot(min: u64, max: u64, blobs: &Vec<String>, digests: &Vec<u64>) -> (r: Vec<
    char,
>)
    requires
        blobs@.len() == max - min + 1,
        1 <= min <= max,
        max <= usize::MAX as u64,
        digests@.len() <= u64::MAX,
    ensures
        r@ == encode_spec(min, max, blobs.deep_view(), digests@),
{
    let mut out: Vec<char> = Vec::new();
    push_hex16(&mut out, min);
    push_hex16(&mut out, max);
    let ghost header = hex16(min) + hex16(max);
    let mut i: usize = 0;
    while i < blobs.len()
        invariant
            i <= blobs@.len(),
            out@ == header + enc_blobs(blobs.deep_view().take(i as int)),
        decreases blobs@.len() - i,
    {
        proof {
            assert(blobs.deep_view().take(i + 1).drop_last() =~= blobs.deep_view().take(i as int));
            assert(blobs.deep_view().take(i + 1).last() == blobs.deep_view()[i as int]);
            assert(blobs.deep_view()[i as int] == blobs@[i as int].deep_view());
            lemma_enc_blobs_snoc(
                blobs.deep_view().take(i as int),
                blobs.deep_view()[i as int],
            );
            assert(blobs.deep_view().take(i as int).push(blobs.deep_view()[i as int])
                =~= blobs.deep_view().take(i + 1));
        }
        let blob_len: usize = blobs[i].as_str().unicode_len();
        push_hex16(&mut out, blob_len as u64);
        let mut cs = chars_of(blobs[i].as_str());
        out.append(&mut cs);
        proof {
            assert(out@ =~= header + enc_blobs(blobs.deep_view().take(i + 1)));
        }
        i = i + 1;
    }
    proof {
        assert(blobs.deep_view().take(blobs@.len() as int) =~= blobs.deep_view());
    }
    let dcount: u64 = digests.len() as u64;
    push_hex16(&mut out, dcount);
    let ghost mid = header + enc_blobs(blobs.deep_view()) + hex16(digests@.len() as u64);
    let mut j: usize = 0;
    while j < digests.len()
        invariant
            j <= digests@.len(),
            mid == header + enc_blobs(blobs.deep_view()) + hex16(digests@.len() as u64),
            out@ == mid + enc_digests(digests@.take(j as int)),
        decreases digests@.len() - j,
    {
        proof {
            assert(digests@.take(j + 1).drop_last() =~= digests@.take(j as int));
            lemma_enc_digests_snoc(digests@.take(j as int), digests@[j as int]);
            assert(digests@.take(j as int).push(digests@[j as int]) =~= digests@.take(j + 1));
        }
        push_hex16(&mut out, digests[j]);
        proof {
            assert(out@ =~= mid + enc_digests(digests@.take(j + 1)));
        }
        j = j + 1;
    }
    proof {
        assert(digests@.take(digests@.len() as int) =~= digests@);
        assert(out@ =~= encode_spec(min, max, blobs.deep_view(), digests@));
    }
    out
}

/// The decoded form of a snapshot text.
pub struct DecodedSnapshot {
    /// The minimum chain order of the model.
    pub min_order: u64,
    /// The maximum chain order of the model.
    pub max_order: u64,
    /// One chain blob per order, minimum order first.
    pub blobs: Vec<String>,
    /// The dedup digests.
    pub digests: Vec<u64>,
}

/// Reads a snapshot text back; `None` exactly on texts that encode no
/// well-formed state.
pub fn decode_snapshot(cs: &Vec<char>) -> (r: Option<DecodedSnapshot>)
    ensures
        match r {
            Option::Some(d) => decode_spec(cs@) == Some(
                (d.min_order, d.max_order, d.blobs.deep_view(), d.digests@),
            ),
            Option::None => decode_spec(cs@) is None,
        },
{
    let total = cs.len();
    if total < 32 {
        proof {
            assert(take_hex(cs@, 0) is None || take_hex(cs@, 16) is None);
        }
        return None;
    }
    let min = match read_hex16(cs, 0) {
        Option::Some(v) => v,
        Option::None => {
            proof {
                assert(cs@.subrange(0, 16) == cs@.subrange(0int, 0int + 16));
            }
            return None;
        },
    };
    proof {
        assert(cs@.subrange(0, 16) == cs@.subrange(0int, 0int + 16));
        assert(take_hex(cs@, 0) == Some(min));
    }
    let max = match read_hex16(cs, 16) {
        Option::Some(v) => v,
        Option::None => {
            return None;
        },
    };
    proof {
        assert(take_hex(cs@, 16) == Some(max));
    }
    if !(1 <= min && min <= max && max <= usize::MAX as u64) {
        return None;
    }
    let n: u64 = max - min + 1;
    let mut blobs: Vec<String> = Vec::new();
    let mut off: usize = 32;
    let ghost overall = dec_blobs(cs@, 32, n as nat);
    let mut i: u64 = 0;
    while i < n
        invariant
            i <= n,
            off <= cs@.len(),
            cs@.len() <= usize::MAX,
            take_hex(cs@, 0) == Some(min),
            take_hex(cs@, 16) == Some(max),
            1 <= min <= max <= usize::MAX as u64,
            n == max - min + 1,
            overall == dec_blobs(cs@, 32, n as nat),
            match dec_blobs(cs@, off as int, (n - i) as nat) {
                Option::None => overall is None,
                Option::Some((bs, end)) => overall == Some((blobs.deep_view() + bs, end)),
            },
        decreases n - i,
    {
        if off > cs.len() || cs.len() - off < 16 {
            proof {
                assert(take_hex(cs@, off as int) is None);
                assert(dec_blobs(cs@, off as int, (n - i) as nat) is None);
            }
            return None;
        }
        let l = match read_hex16(cs, off) {
            Option::Some(v) => v,
            Option::None => {
                proof {
                    assert(take_hex(cs@, off as int) is None);
                    assert(dec_blobs(cs@, off as int, (n - i) as nat) is None);
                }
                return None;
            },
        };
        proof {
            assert(take_hex(cs@, off as int) == Some(l));
        }
        if l > (cs.len() - off - 16) as u64 {
            proof {
                assert(off + 16 + l > cs@.len());
                assert(dec_blobs(cs@, off as int, (n - i) as nat) is None);
            }
            return None;
        }
        let blob_len = l as usize;
        let mut bchars: Vec<char> = Vec::new();
        let mut k: usize = 0;
        while k < blob_len
            invariant
                k <= blob_len,
                off + 16 + blob_len <= cs@.len(),
                cs@.len() <= usize::MAX,
                bchars@ == cs@.subrange(off + 16, off + 16 + k),
            decreases blob_len - k,
        {
            bchars.push(cs[off + 16 + k]);
            proof {
                assert(bchars@ =~= cs@.subrange(off + 16, off + 16 + k + 1));
            }
            k = k + 1;
        }
        let blob = crate::strutil::string_from_chars(&bchars);
        let ghost prev_deep = blobs.deep_view();
        blobs.push(blob);
        proof {
            assert(blobs.deep_view() =~~= prev_deep.push(cs@.subrange(off + 16, off + 16 + l)));
        }
        let new_off = off + 16 + blob_len;
        proof {
            let bs_tail = dec_blobs(cs@, new_off as int, (n - i - 1) as nat);
            match bs_tail {
                Option::None => {
                    assert(dec_blobs(cs@, off as int, (n - i) as nat) is None);
                }
                Option::Some((bs2, end2)) => {
                    assert(dec_blobs(cs@, off as int, (n - i) as nat) == Some(
                        (seq![cs@.subrange(off + 16, off + 16 + l)] + bs2, end2),
                    ));
                    assert(prev_deep + (seq![cs@.subrange(off + 16, off + 16 + l)] + bs2)
                        =~~= blobs.deep_view() + bs2);
                }
            }
        }
        off = new_off;
        i = i + 1;
    }
    proof {
        assert(dec_blobs(cs@, off as int, 0) == Some((Seq::<Seq<char>>::empty(), off as int)));
        assert(blobs.deep_view() + Seq::<Seq<char>>::empty() =~~= blobs.deep_view());
        assert(overall == Some((blobs.deep_view(), off as int)));
    }
    if off > cs.len() || cs.len() - off < 16 {
        proof {
            assert(take_hex(cs@, off as int) is None);
        }
        return None;
    }
    let cnt = match read_hex16(cs, off) {
        Option::Some(v) => v,
        Option::None => {
            proof {
                assert(take_hex(cs@, off as int) is None);
            }
            return None;
        },
    };
    proof {
        assert(take_hex(cs@, off as int) == Some(cnt));
    }
    let mut digests: Vec<u64> = Vec::new();
    let doff0 = off + 16;
    let ghost doverall = dec_digests(cs@, doff0 as int, cnt as nat);
    let mut doff: usize = doff0;
    let mut j: u64 = 0;
    while j < cnt
        invariant
            j <= cnt,
            doff <= cs@.len(),
            cs@.len() <= usize::MAX,
            take_hex(cs@, 0) == Some(min),
            take_hex(cs@, 16) == Some(max),
            1 <= min <= max <= usize::MAX as u64,
            n == max - min + 1,
            overall == dec_blobs(cs@, 32, n as nat),
            overall == Some((blobs.deep_view(), doff0 - 16)),
            take_hex(cs@, doff0 - 16) == Some(cnt),
            doverall == dec_digests(cs@, doff0 as int, cnt as nat),
            match dec_digests(cs@, doff as int, (cnt - j) as nat) {
                Option::None => doverall is None,
                Option::Some((ds, end)) => doverall == Some((digests@ + ds, end)),
            },
        decreases cnt - j,
    {
        if doff > cs.len() || cs.len() - doff < 16 {
            proof {
                assert(take_hex(cs@, doff as int) is None);
                assert(dec_digests(cs@, doff as int, (cnt - j) as nat) is None);
            }
            return None;
        }
        let d = match read_hex16(cs, doff) {
            Option::Some(v) => v,
            Option::None => {
                proof {
                    assert(take_hex(cs@, doff as int) is None);
                    assert(dec_digests(cs@, doff as int, (cnt - j) as nat) is None);
                }
                return None;
            },
        };
        proof {
            assert(take_hex(cs@, doff as int) == Some(d));
        }
        let ghost prev = digests@;
        digests.push(d);
        proof {
            let ds_tail = dec_digests(cs@, doff + 16, (cnt - j - 1) as nat);
            match ds_tail {
                Option::None => {
                    assert(dec_digests(cs@, doff as int, (cnt - j) as nat) is None);
                }
                Option::Some((ds2, end2)) => {
                    assert(dec_digests(cs@, doff as int, (cnt - j) as nat) == Some(
                        (seq![d] + ds2, end2),
                    ));
                    assert(prev + (seq![d] + ds2) =~= digests@ + ds2);
                }
            }
        }
        doff = doff + 16;
        j = j + 1;
    }
    proof {
        assert(dec_digests(cs@, doff as int, 0) == Some((Seq::<u64>::empty(), doff as int)));
        assert(digests@ + Seq::<u64>::empty() =~= digests@);
        assert(doverall == Some((digests@, doff as int)));
    }
    if doff != cs.len() {
        return None;
    }
    Some(DecodedSnapshot { min_order: min, max_order: max, blobs, digests })
}

} // verus!
