//! Outbound wire encodings of the WebSocket broadcaster.
//!
//! A harvested batch travels as one text frame: preferably
//! `MSGPACK:<base64>` over a MessagePack map of tag names to values,
//! with plain JSON as the fallback when that encoding fails. The
//! base64 leg and the framing are verified here; the two serializers
//! are outside calls whose results are named, and the harvest
//! schedule that feeds the batches is pinned exactly.

use vstd::prelude::*;

verus! {

/// The base64 alphabet, in order.
pub open spec fn b64_alphabet() -> Seq<char> {
    "ABCDEFGHIJKLMNOPQRSTUVWXYZabcdefghijklmnopqrstuvwxyz0123456789+/"@
}

/// The four characters encoding one chunk of up to three bytes.
pub open spec fn b64_chunk(chunk: Seq<u8>) -> Seq<char> {
    let b0 = if chunk.len() > 0 {
        chunk[0] as nat
    } else {
        0nat
    };
    let b1 = if chunk.len() > 1 {
        chunk[1] as nat
    } else {
        0nat
    };
    let b2 = if chunk.len() > 2 {
        chunk[2] as nat
    } else {
        0nat
    };
    let b = b0 * 0x10000 + b1 * 0x100 + b2;
    seq![
        b64_alphabet()[((b / 0x40000) % 64) as int],
        b64_alphabet()[((b / 0x1000) % 64) as int],
        if chunk.len() > 1 {
            b64_alphabet()[((b / 0x40) % 64) as int]
        } else {
            '='
        },
        if chunk.len() > 2 {
            b64_alphabet()[(b % 64) as int]
        } else {
            '='
        },
    ]
}

/// Base64 text of a byte string: four characters per chunk of three
/// bytes, `=`-padded at the end.
pub open spec fn base64_of(data: Seq<u8>) -> Seq<char>
    decreases data.len(),
{
    if data.len() == 0 {
        Seq::<char>::empty()
    } else if data.len() >= 3 {
        b64_chunk(data.take(3)) + base64_of(data.skip(3))
    } else {
        b64_chunk(data)
    }
}

/// One base64 character.
fn b64_char_at(idx: u64) -> (c: char)
    requires
        idx < 64,
    ensures
        c == b64_alphabet()[idx as int],
{
    let alphabet: &str = "ABCDEFGHIJKLMNOPQRSTUVWXYZabcdefghijklmnopqrstuvwxyz0123456789+/";
    proof {
        reveal_strlit("ABCDEFGHIJKLMNOPQRSTUVWXYZabcdefghijklmnopqrstuvwxyz0123456789+/");
    }
    alphabet.get_char(idx as usize)
}

/// Base64 text of `data`.
pub fn base64_encode(data: &[u8]) -> (s: String)
    ensures
        s@ == base64_of(data@),
{
    let mut s = String::new();
    let mut i: usize = 0;
    let n = data.len();
    proof {
        assert(data@.skip(0) =~= data@);
    }
    while i < n
        invariant
            0 <= i <= n,
            n == data@.len(),
            base64_of(data@) == s@ + base64_of(data@.skip(i as int)),
        decreases n - i,
    {
        let rest = n - i;
        let b0: u64 = data[i] as u64;
        let b1: u64 = if rest > 1 {
            data[i + 1] as u64
        } else {
            0
        };
        let b2: u64 = if rest > 2 {
            data[i + 2] as u64
        } else {
            0
        };
        let b: u64 = b0 * 0x10000 + b1 * 0x100 + b2;
        let ghost chunk = if rest >= 3 {
            data@.skip(i as int).take(3)
        } else {
            data@.skip(i as int)
        };
        let c0 = b64_char_at((b / 0x40000) % 64);
        let c1 = b64_char_at((b / 0x1000) % 64);
        let ghost before = s@;
        s.append(char_push(c0).as_str());
        s.append(char_push(c1).as_str());
        if rest > 1 {
            let c2 = b64_char_at((b / 0x40) % 64);
            s.append(char_push(c2).as_str());
        } else {
            s.append("=");
            proof {
                reveal_strlit("=");
            }
        }
        if rest > 2 {
            let c3 = b64_char_at(b % 64);
            s.append(char_push(c3).as_str());
        } else {
            s.append("=");
            proof {
                reveal_strlit("=");
            }
        }
        proof {
            assert(chunk.len() == (if rest >= 3 {
                3int
            } else {
                rest as int
            }));
            if rest >= 3 {
                assert(chunk[0] == data@[i as int]);
                assert(chunk[1] == data@[i as int + 1]);
                assert(chunk[2] == data@[i as int + 2]);
            } else if rest == 2 {
                assert(chunk[0] == data@[i as int]);
                assert(chunk[1] == data@[i as int + 1]);
            } else {
                assert(chunk[0] == data@[i as int]);
            }
            assert(s@ =~= before + b64_chunk(chunk));
            if rest >= 3 {
                assert(base64_of(data@.skip(i as int)) == b64_chunk(chunk) + base64_of(
                    data@.skip(i as int + 3),
                )) by {
                    assert(data@.skip(i as int).skip(3) =~= data@.skip(i as int + 3));
                }
            } else {
                assert(base64_of(data@.skip(i as int)) == b64_chunk(chunk));
                assert(data@.skip(n as int).len() == 0);
                assert(base64_of(data@.skip(n as int)) =~= Seq::<char>::empty());
            }
        }
        if rest >= 3 {
            i = i + 3;
        } else {
            i = n;
        }
    }
    proof {
        assert(base64_of(data@.skip(n as int)) =~= Seq::<char>::empty());
        assert(s@ =~= base64_of(data@));
    }
    s
}

/// Relies on `String::push`: builds the one-character string.
#[verifier::external_body]
pub(crate) fn char_push(c: char) -> (s: String)
    ensures
        s@ == seq![c],
{
    let mut s = String::new();
    s.push(c);
    s
}

/// The key-to-value map a pair list denotes: a later pair with the
/// same key wins, as when the pairs are collected into a map.
pub open spec fn pairs_map(pairs: Seq<(Seq<char>, Seq<char>)>) -> Map<Seq<char>, Seq<char>>
    decreases pairs.len(),
{
    if pairs.len() == 0 {
        Map::<Seq<char>, Seq<char>>::empty()
    } else {
        pairs_map(pairs.drop_last()).insert(pairs.last().0, pairs.last().1)
    }
}

/// The MessagePack bytes of a tag map, written in sorted key order.
pub uninterp spec fn msgpack_of(entries: Map<Seq<char>, Seq<char>>) -> Seq<u8>;

/// The JSON object text of a tag map, written in sorted key order.
pub uninterp spec fn json_of(entries: Map<Seq<char>, Seq<char>>) -> Seq<char>;

/// Relies on `rmp_serde::to_vec` over a `BTreeMap`: the bytes are a
/// MessagePack map of the pairs, a function of the key-to-value map
/// alone because a `BTreeMap` iterates in sorted key order. On a map
/// of strings the encoder only writes lengths, keys and values, so it
/// succeeds (allocation failure aside, as everywhere).
#[verifier::external_body]
fn encode_msgpack_map(pairs: &Vec<(String, String)>) -> (r: Option<Vec<u8>>)
    ensures
        r is Some,
        match r {
            Some(bytes) => bytes@ == msgpack_of(pairs_map(crate::cache::pairs_view(pairs@))),
            None => true,
        },
{
    let map: std::collections::BTreeMap<String, String> = pairs
        .iter()
        .map(|p| (p.0.clone(), p.1.clone()))
        .collect();
    match rmp_serde::to_vec(&map) {
        Ok(bytes) => Some(bytes),
        Err(_) => None,
    }
}

/// Relies on `serde_json::to_string` over a `BTreeMap`: the text is a
/// JSON object of the pairs, a function of the key-to-value map alone
/// because a `BTreeMap` iterates in sorted key order. String keys and
/// values always serialize, so it succeeds (allocation failure aside).
#[verifier::external_body]
fn encode_json_map(pairs: &Vec<(String, String)>) -> (r: Option<String>)
    ensures
        r is Some,
        match r {
            Some(text) => text@ == json_of(pairs_map(crate::cache::pairs_view(pairs@))),
            None => true,
        },
{
    let map: std::collections::BTreeMap<String, String> = pairs
        .iter()
        .map(|p| (p.0.clone(), p.1.clone()))
        .collect();
    match serde_json::to_string(&map) {
        Ok(text) => Some(text),
        Err(_) => None,
    }
}

/// The broadcast text for a batch: always produced, never dropped.
/// The compact form `MSGPACK:<base64 of the MessagePack map>` is
/// preferred; the JSON object with identical semantics stands in only
/// if that encoder ever refused — which, by its contract, it does
/// not, so the text is pinned to the compact form.
pub fn make_broadcast_message(pairs: &Vec<(String, String)>) -> (r: Option<String>)
    ensures
        r is Some,
        match r {
            Some(text) => text@ == "MSGPACK:"@ + base64_of(
                msgpack_of(pairs_map(crate::cache::pairs_view(pairs@))),
            ),
            None => true,
        },
{
    match encode_msgpack_map(pairs) {
        Some(bytes) => {
            let mut s = String::from_str("MSGPACK:");
            let b64 = base64_encode(bytes.as_slice());
            s.append(b64.as_str());
            proof {
                reveal_strlit("MSGPACK:");
            }
            Some(s)
        },
        None => encode_json_map(pairs),
    }
}

/// The plain JSON form of a batch, used as the fallback encoding and
/// wherever a reader prefers text: the JSON object of the tag map,
/// always produced.
pub fn make_json_message(pairs: &Vec<(String, String)>) -> (r: Option<String>)
    ensures
        r is Some,
        match r {
            Some(text) => text@ == json_of(pairs_map(crate::cache::pairs_view(pairs@))),
            None => true,
        },
{
    encode_json_map(pairs)
}

/// The four harvesters of the broadcaster.
#[derive(Clone, Copy, PartialEq, Eq, Structural, Debug)]
pub enum HarvestBatch {
    /// Every 500 ms, intervals one to three seconds.
    Fast,
    /// Every 2 s, intervals four to seven seconds.
    Medium,
    /// Every 5 s, intervals eight to ten seconds.
    Slow,
    /// Every 100 ms, the on-change tags.
    Change,
}

/// The intervals a batch harvests, in order. The change batch passes
/// zero: on-change entries are taken as often as it ticks.
pub fn batch_intervals(batch: HarvestBatch) -> (r: Vec<u64>)
    ensures
        batch == HarvestBatch::Fast ==> r@ == seq![1u64, 2u64, 3u64],
        batch == HarvestBatch::Medium ==> r@ == seq![4u64, 5u64, 6u64, 7u64],
        batch == HarvestBatch::Slow ==> r@ == seq![8u64, 9u64, 10u64],
        batch == HarvestBatch::Change ==> r@ == seq![0u64],
{
    let mut r: Vec<u64> = Vec::new();
    match batch {
        HarvestBatch::Fast => {
            r.push(1);
            r.push(2);
            r.push(3);
            proof {
                assert(r@ =~= seq![1u64, 2u64, 3u64]);
            }
        },
        HarvestBatch::Medium => {
            r.push(4);
            r.push(5);
            r.push(6);
            r.push(7);
            proof {
                assert(r@ =~= seq![4u64, 5u64, 6u64, 7u64]);
            }
        },
        HarvestBatch::Slow => {
            r.push(8);
            r.push(9);
            r.push(10);
            proof {
                assert(r@ =~= seq![8u64, 9u64, 10u64]);
            }
        },
        HarvestBatch::Change => {
            r.push(0);
            proof {
                assert(r@ =~= seq![0u64]);
            }
        },
    }
    r
}

/// The tick period of a batch, in milliseconds.
pub fn batch_period_ms(batch: HarvestBatch) -> (r: u64)
    ensures
        batch == HarvestBatch::Fast ==> r == 500,
        batch == HarvestBatch::Medium ==> r == 2000,
        batch == HarvestBatch::Slow ==> r == 5000,
        batch == HarvestBatch::Change ==> r == 100,
{
    match batch {
        HarvestBatch::Fast => 500,
        HarvestBatch::Medium => 2000,
        HarvestBatch::Slow => 5000,
        HarvestBatch::Change => 100,
    }
}

} // verus!
