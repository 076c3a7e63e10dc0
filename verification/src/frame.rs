use vstd::prelude::*;

use std::collections::HashMap;

use crate::error::ParseError;
use crate::text::chars_of;
use crate::expr::{expr_view, exprs_view, lemma_exprs_view_index, lemma_exprs_view_len,
    lemma_pairs_view_index, lemma_pairs_view_len, pairs_view, Expr};
use crate::val::Val;

verus! {

broadcast use lemma_exprs_view_len, lemma_exprs_view_index, lemma_pairs_view_len,
    lemma_pairs_view_index, vstd::std_specs::hash::group_hash_axioms;

/// What an open frame is collecting: an array's elements, or the
/// alternating keys and values of a map.
#[derive(Debug, Clone, Copy, PartialEq, Eq, Structural)]
pub enum FrameKind {
    Array,
    Dict,
}

/// An accumulation buffer for one open bracket: the completed children so
/// far, and which kind of close it expects.
#[derive(Debug)]
pub(crate) struct Frame {
    pub(crate) kind: FrameKind,
    pub(crate) exprs: Vec<Expr>,
}

/// The model of one frame.
pub(crate) open spec fn frame_model(f: Frame) -> (FrameKind, Seq<Val>) {
    (f.kind, exprs_view(f.exprs@))
}

/// Whether some entry already carries the key `k`.
pub open spec fn entries_have_key(entries: Seq<(Seq<char>, Val)>, k: Seq<char>) -> bool {
    exists|i: int| 0 <= i < entries.len() && (#[trigger] entries[i]).0 == k
}

/// Pairing a map frame's children: consumed from the end toward the start,
/// two at a time — the element popped first is a pair's value and the one
/// popped second must be a string, its key. A key already present is left
/// as it stands, so of equal keys the pair nearest the end wins. An odd
/// child count, or a non-string in key position, is a parse error.
pub open spec fn pairs_to_entries(items: Seq<Val>, acc: Seq<(Seq<char>, Val)>) -> Result<
    Seq<(Seq<char>, Val)>,
    ParseError,
>
    decreases items.len(),
{
    if items.len() == 0 {
        Ok(acc)
    } else if items.len() == 1 {
        Err(ParseError::MapOddLength)
    } else {
        let value = items.last();
        let key = items[items.len() - 2];
        match key {
            Val::Str(k) => pairs_to_entries(
                items.take(items.len() - 2),
                if entries_have_key(acc, k) {
                    acc
                } else {
                    acc.push((k, value))
                },
            ),
            _ => Err(ParseError::MapKeyNotString),
        }
    }
}

/// One step of the FNV-1a digest over a character's scalar value.
pub open spec fn fnv_step(h: u64, c: char) -> u64 {
    vstd::wrapping::u64_specs::wrapping_mul(h ^ ((c as u32) as u64), 0x100000001b3u64)
}

/// The FNV-1a digest of a key, used only to shortcut the search for an
/// equal key: correctness never rests on it.
pub open spec fn fnv(s: Seq<char>) -> u64
    decreases s.len(),
{
    if s.len() == 0 {
        0xcbf29ce484222325u64
    } else {
        fnv_step(fnv(s.drop_last()), s.last())
    }
}

fn fnv_hash(s: &String) -> (r: u64)
    ensures
        r == fnv(s@),
{
    let cs = chars_of(s.as_str());
    let n = cs.len();
    let mut h: u64 = 0xcbf29ce484222325u64;
    let mut i: usize = 0;
    while i < n
        invariant
            0 <= i <= n,
            n == cs.len(),
            cs@ == s@,
            h == fnv(s@.take(i as int)),
        decreases n - i,
    {
        let c = cs[i];
        h = (h ^ ((c as u32) as u64)).wrapping_mul(0x100000001b3u64);
        proof {
            assert(s@.take(i + 1).drop_last() =~= s@.take(i as int));
            assert(s@.take(i + 1).last() == s@[i as int]);
        }
        i = i + 1;
    }
    proof {
        assert(s@.take(n as int) =~= s@);
    }
    h
}

impl Frame {
    /// An empty frame of the given kind.
    pub(crate) fn new(kind: FrameKind) -> (r: Frame)
        ensures
            frame_model(r) == (kind, Seq::<Val>::empty()),
    {
        let f = Frame { kind, exprs: Vec::new() };
        proof {
            assert(exprs_view(f.exprs@) =~= Seq::<Val>::empty());
        }
        f
    }

    /// Appends a completed child.
    pub(crate) fn push(&mut self, expr: Expr)
        ensures
            final(self).kind == old(self).kind,
            frame_model(*final(self)) == (
                old(self).kind,
                frame_model(*old(self)).1.push(expr@),
            ),
    {
        self.exprs.push(expr);
        proof {
            assert(exprs_view(self.exprs@) =~= exprs_view(old(self).exprs@).push(expr@));
        }
    }

    /// The frame's children become an array's elements, in append order.
    pub(crate) fn to_array(self) -> (r: Expr)
        ensures
            r@ == Val::Arr(frame_model(self).1),
    {
        Expr::Array(self.exprs)
    }

    /// The frame's children become a map, paired from the end toward the
    /// start, the pair nearest the end winning an equal key.
    pub(crate) fn to_map(self) -> (r: Result<Expr, ParseError>)
        ensures
            match r {
                Ok(e) => pairs_to_entries(frame_model(self).1, Seq::empty()) matches Ok(entries)
                    && e@ == Val::Dict(entries),
                Err(err) => pairs_to_entries(frame_model(self).1, Seq::empty()) == Err::<
                    Seq<(Seq<char>, Val)>,
                    ParseError,
                >(err),
            },
    {
        let mut items = self.exprs;
        let ghost whole = exprs_view(items@);
        let mut out: Vec<(String, Expr)> = Vec::new();
        // an index from key digest to one entry position, so a key's
        // presence is settled without scanning every gathered entry
        let mut index: HashMap<u64, usize> = HashMap::new();
        proof {
            assert(pairs_view(out@) =~= Seq::<(Seq<char>, Val)>::empty());
        }
        loop
            invariant
                whole == frame_model(self).1,
                pairs_to_entries(whole, Seq::empty()) == pairs_to_entries(
                    exprs_view(items@),
                    pairs_view(out@),
                ),
                forall|j: int|
                    0 <= j < out@.len() ==> index@.contains_key(fnv((#[trigger] out@[j]).0@)),
                forall|hh: u64| index@.contains_key(hh) ==> #[trigger] index@[hh] < out@.len(),
            ensures
                exprs_view(items@).len() == 0,
                pairs_to_entries(whole, Seq::empty()) == pairs_to_entries(
                    exprs_view(items@),
                    pairs_view(out@),
                ),
            decreases items@.len(),
        {
            let ghost items0 = items@;
            let value = match items.pop() {
                Some(v) => v,
                None => {
                    break;
                },
            };
            let key = match items.pop() {
                Some(k) => k,
                None => {
                    proof {
                        assert(exprs_view(items0).len() == 1);
                    }
                    return Err(ParseError::MapOddLength);
                },
            };
            proof {
                assert(exprs_view(items0).len() == items0.len());
                assert(exprs_view(items0).last() == expr_view(value));
                assert(exprs_view(items0)[items0.len() - 2] == expr_view(key));
                assert(exprs_view(items0).take(items0.len() - 2) =~= exprs_view(items@));
            }
            let k = match key {
                Expr::String(s) => s,
                _ => {
                    proof {
                        assert(!(exprs_view(items0)[items0.len() - 2] is Str));
                    }
                    return Err(ParseError::MapKeyNotString);
                },
            };
            let ghost out0 = out@;
            let h = fnv_hash(&k);
            let hit: Option<usize> = match index.get(&h) {
                Some(j) => Some(*j),
                None => None,
            };
            let mut have = false;
            match hit {
                Some(j) => {
                    if j < out.len() && out[j].0.eq(&k) {
                        have = true;
                        proof {
                            assert((pairs_view(out@)[j as int]).0 == k@);
                            assert(entries_have_key(pairs_view(out@), k@));
                        }
                    } else {
                        // a digest collision: settle membership by scanning
                        let n = out.len();
                        let mut i: usize = 0;
                        while i < n
                            invariant
                                0 <= i <= n,
                                n == out.len(),
                                out@ == out0,
                                pairs_view(out@).len() == out@.len(),
                                forall|a: int|
                                    0 <= a < out@.len() ==> #[trigger] pairs_view(out@)[a] == (
                                        out@[a].0@,
                                        expr_view(out@[a].1),
                                    ),
                                !have ==> forall|a: int|
                                    0 <= a < i ==> (#[trigger] pairs_view(out@)[a]).0 != k@,
                                have ==> entries_have_key(pairs_view(out@), k@),
                            ensures
                                out@ == out0,
                                have == entries_have_key(pairs_view(out@), k@),
                            decreases n - i,
                        {
                            if out[i].0.eq(&k) {
                                have = true;
                                proof {
                                    assert((pairs_view(out@)[i as int]).0 == k@);
                                }
                                break;
                            }
                            i = i + 1;
                        }
                    }
                },
                None => {
                    proof {
                        assert(!index@.contains_key(h));
                        assert forall|a: int| 0 <= a < pairs_view(out@).len() implies (
                        #[trigger] pairs_view(out@)[a]).0 != k@ by {
                            assert(pairs_view(out@)[a].0 == out@[a].0@);
                            if out@[a].0@ == k@ {
                                assert(index@.contains_key(fnv(out@[a].0@)));
                            }
                        }
                        assert(!entries_have_key(pairs_view(out@), k@));
                    }
                },
            }
            proof {
                assert(have == entries_have_key(pairs_view(out@), k@));
            }
            if !have {
                index.insert(h, out.len());
                out.push((k, value));
                proof {
                    assert(pairs_view(out@) =~= pairs_view(out0).push((k@, expr_view(value))));
                }
            }
        }
        proof {
            assert(pairs_to_entries(whole, Seq::empty()) == Ok::<
                Seq<(Seq<char>, Val)>,
                ParseError,
            >(pairs_view(out@)));
        }
        Ok(Expr::Dict(out))
    }
}

// ---------------------------------------------------------------------------
// Laws of map pairing
// ---------------------------------------------------------------------------

/// A child sequence that pairs cleanly: even length, a string in every key
/// position.
pub open spec fn pairs_ok(items: Seq<Val>) -> bool
    decreases items.len(),
{
    if items.len() == 0 {
        true
    } else if items.len() == 1 {
        false
    } else {
        items[items.len() - 2] is Str && pairs_ok(items.take(items.len() - 2))
    }
}

/// The value of the pair nearest the end whose key is `k` — reading the
/// children as `key value` pairs left to right, the last write.
pub open spec fn pair_lookup(items: Seq<Val>, k: Seq<char>) -> Option<Val>
    decreases items.len(),
{
    if items.len() < 2 {
        None
    } else if items[items.len() - 2] == Val::Str(k) {
        Some(items.last())
    } else {
        pair_lookup(items.take(items.len() - 2), k)
    }
}

/// Pairing succeeds exactly on cleanly pairing child sequences, whatever
/// entries were gathered before.
pub proof fn lemma_pairs_ok_iff(items: Seq<Val>, acc: Seq<(Seq<char>, Val)>)
    ensures
        (pairs_to_entries(items, acc) is Ok) == pairs_ok(items),
    decreases items.len(),
{
    if items.len() >= 2 {
        let key = items[items.len() - 2];
        match key {
            Val::Str(kk) => {
                let acc2 = if entries_have_key(acc, kk) {
                    acc
                } else {
                    acc.push((kk, items.last()))
                };
                lemma_pairs_ok_iff(items.take(items.len() - 2), acc2);
            },
            _ => {},
        }
    }
}

/// A key stands in an entry sequence exactly when looking it up finds a
/// value.
pub proof fn lemma_have_iff_lookup(entries: Seq<(Seq<char>, Val)>, k: Seq<char>)
    ensures
        entries_have_key(entries, k) == (crate::val::dict_lookup(entries, k) is Some),
    decreases entries.len(),
{
    if entries.len() > 0 {
        if entries.last().0 == k {
        } else {
            lemma_have_iff_lookup(entries.drop_last(), k);
            assert(entries_have_key(entries, k) == entries_have_key(entries.drop_last(), k)) by {
                if entries_have_key(entries, k) {
                    let i = choose|i: int|
                        0 <= i < entries.len() && (#[trigger] entries[i]).0 == k;
                    assert(i < entries.len() - 1);
                    assert(entries.drop_last()[i] == entries[i]);
                }
                if entries_have_key(entries.drop_last(), k) {
                    let i = choose|i: int|
                        0 <= i < entries.drop_last().len() && (#[trigger] entries.drop_last()[i]).0
                            == k;
                    assert(entries[i] == entries.drop_last()[i]);
                }
            }
        }
    }
}

/// What pairing builds, gathered entries included: each key at most once,
/// and a key's value is the one gathered before, or else the value of the
/// pair nearest the end of the children bearing that key.
proof fn lemma_entries_sem_acc(items: Seq<Val>, acc: Seq<(Seq<char>, Val)>, entries: Seq<
    (Seq<char>, Val)>)
    requires
        pairs_to_entries(items, acc) == Ok::<Seq<(Seq<char>, Val)>, ParseError>(entries),
        forall|i: int, j: int|
            0 <= i < j < acc.len() ==> (#[trigger] acc[i]).0 != (#[trigger] acc[j]).0,
    ensures
        forall|i: int, j: int|
            0 <= i < j < entries.len() ==> (#[trigger] entries[i]).0 != (#[trigger] entries[j]).0,
        forall|k: Seq<char>|
            #[trigger] crate::val::dict_lookup(entries, k) == (if entries_have_key(acc, k) {
                crate::val::dict_lookup(acc, k)
            } else {
                pair_lookup(items, k)
            }),
    decreases items.len(),
{
    if items.len() == 0 {
        assert(entries == acc);
        assert forall|k: Seq<char>|
            #[trigger] crate::val::dict_lookup(entries, k) == (if entries_have_key(acc, k) {
                crate::val::dict_lookup(acc, k)
            } else {
                pair_lookup(items, k)
            }) by {
            lemma_have_iff_lookup(acc, k);
        }
    } else if items.len() == 1 {
    } else {
        let kk_val = items[items.len() - 2];
        match kk_val {
            Val::Str(kk) => {
                let v = items.last();
                let front = items.take(items.len() - 2);
                let acc2 = if entries_have_key(acc, kk) {
                    acc
                } else {
                    acc.push((kk, v))
                };
                assert(forall|i: int, j: int|
                    0 <= i < j < acc2.len() ==> (#[trigger] acc2[i]).0 != (
                    #[trigger] acc2[j]).0) by {
                    if !entries_have_key(acc, kk) {
                        assert(forall|i: int|
                            0 <= i < acc.len() ==> (#[trigger] acc[i]).0 != kk);
                        assert(forall|i: int|
                            0 <= i < acc.len() ==> acc2[i] == acc[i]);
                    }
                }
                lemma_entries_sem_acc(front, acc2, entries);
                assert forall|k: Seq<char>|
                    #[trigger] crate::val::dict_lookup(entries, k) == (if entries_have_key(
                        acc,
                        k,
                    ) {
                        crate::val::dict_lookup(acc, k)
                    } else {
                        pair_lookup(items, k)
                    }) by {
                    lemma_have_iff_lookup(acc, k);
                    lemma_have_iff_lookup(acc2, k);
                    if k == kk {
                        if !entries_have_key(acc, kk) {
                            assert(acc2.last() == (kk, v));
                            assert(crate::val::dict_lookup(acc2, kk) == Some(v));
                            assert(entries_have_key(acc2, kk));
                            assert(pair_lookup(items, kk) == Some(v));
                        }
                    } else {
                        if !entries_have_key(acc, kk) {
                            assert(acc2.drop_last() =~= acc);
                            assert(crate::val::dict_lookup(acc2, k) == crate::val::dict_lookup(
                                acc,
                                k,
                            ));
                            assert(entries_have_key(acc2, k) == entries_have_key(acc, k)) by {
                                if entries_have_key(acc2, k) {
                                    let i = choose|i: int|
                                        0 <= i < acc2.len() && (#[trigger] acc2[i]).0 == k;
                                    assert(i < acc.len());
                                    assert(acc[i] == acc2[i]);
                                }
                                if entries_have_key(acc, k) {
                                    let i = choose|i: int|
                                        0 <= i < acc.len() && (#[trigger] acc[i]).0 == k;
                                    assert(acc2[i] == acc[i]);
                                }
                            }
                        }
                        assert(items.take(items.len() - 2) == front);
                        assert(pair_lookup(items, k) == pair_lookup(front, k));
                    }
                }
            },
            _ => {},
        }
    }
}

/// Pairing a map frame's children: each key appears once, and its value is
/// that of the pair nearest the end — reading `key value` pairs left to
/// right, the last write wins; pairing from the back and scanning from the
/// front agree on this result.
pub proof fn lemma_map_pairing(items: Seq<Val>, entries: Seq<(Seq<char>, Val)>)
    requires
        pairs_to_entries(items, Seq::empty()) == Ok::<Seq<(Seq<char>, Val)>, ParseError>(entries),
    ensures
        forall|i: int, j: int|
            0 <= i < j < entries.len() ==> (#[trigger] entries[i]).0 != (#[trigger] entries[j]).0,
        forall|k: Seq<char>|
            #[trigger] crate::val::dict_lookup(entries, k) == pair_lookup(items, k),
        forall|k: Seq<char>| #[trigger] entries_have_key(entries, k) == (pair_lookup(items, k)
            is Some),
{
    lemma_entries_sem_acc(items, Seq::empty(), entries);
    assert forall|k: Seq<char>| #[trigger] entries_have_key(entries, k) == (pair_lookup(
        items,
        k,
    ) is Some) by {
        lemma_have_iff_lookup(entries, k);
    }
}

} // verus!
