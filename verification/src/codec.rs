//! The snapshot codec: a trained model is written to bytes and read back
//! without loss. Integers are fixed-width little-endian, strings are
//! length-prefixed sequences of code points, so every count, tally and key
//! structure round-trips exactly whatever backend stores the bytes.

use crate::chars::{char_from_u32, empty_string, push_char, str_chars};
use crate::model::{Count, State, Suffix, SuffixV};
use crate::score::{Prob, Score};
use crate::strset::StrSet;
use crate::store::store_entries;
use vstd::arithmetic::div_mod::{lemma_div_denominator, lemma_fundamental_div_mod,
    lemma_fundamental_div_mod_converse};
use vstd::prelude::*;

verus! {

broadcast use vstd::utf8::char_is_scalar, vstd::utf8::char_u32_cast;

/// The little-endian bytes of `x`, `k` bytes wide.
pub open spec fn le_bytes(x: int, k: int) -> Seq<u8>
    decreases k,
{
    if k <= 0 {
        Seq::empty()
    } else {
        seq![(x % 256) as u8] + le_bytes(x / 256, k - 1)
    }
}

/// The value of the `k` little-endian bytes of `b` starting at `pos`.
pub open spec fn le_value(b: Seq<u8>, pos: int, k: int) -> int
    decreases k,
{
    if k <= 0 {
        0
    } else {
        b[pos] + 256 * le_value(b, pos + 1, k - 1)
    }
}

/// The eight little-endian bytes of a 64-bit value.
pub open spec fn u64_bytes(x: int) -> Seq<u8> {
    le_bytes(x, 8)
}

/// `le_bytes` always writes `k` bytes.
pub proof fn lemma_le_bytes_len(x: int, k: int)
    requires
        0 <= k,
    ensures
        le_bytes(x, k).len() == k,
    decreases k,
{
    if k > 0 {
        lemma_le_bytes_len(x / 256, k - 1);
    }
}

/// Reading back the bytes of a value in range yields the value.
pub proof fn lemma_le_bytes_value(b: Seq<u8>, pos: int, x: int, k: int)
    requires
        0 <= k,
        0 <= x,
        0 <= pos,
        pos + k <= b.len(),
        b.subrange(pos, pos + k) == le_bytes(x, k),
        x < vstd::arithmetic::power::pow(256, k as nat),
    ensures
        le_value(b, pos, k) == x,
    decreases k,
{
    vstd::arithmetic::power::lemma_pow_positive(256, k as nat);
    if k == 0 {
        vstd::arithmetic::power::lemma_pow0(256);
    } else {
        lemma_le_bytes_len(x / 256, k - 1);
        assert(b.subrange(pos, pos + k)[0] == b[pos]);
        assert(b[pos] == (x % 256) as u8);
        assert(b.subrange(pos + 1, pos + k) =~= le_bytes(x / 256, k - 1)) by {
            assert forall|j: int| 0 <= j < k - 1 implies #[trigger] b.subrange(pos + 1, pos + k)[j]
                == le_bytes(x / 256, k - 1)[j] by {
                assert(b.subrange(pos, pos + k)[j + 1] == b[pos + 1 + j]);
                assert(le_bytes(x, k)[j + 1] == le_bytes(x / 256, k - 1)[j]);
            }
        }
        assert(x / 256 < vstd::arithmetic::power::pow(256, (k - 1) as nat)) by {
            vstd::arithmetic::power::lemma_pow_positive(256, (k - 1) as nat);
            let p = vstd::arithmetic::power::pow(256, (k - 1) as nat);
            assert(vstd::arithmetic::power::pow(256, k as nat) == 256 * p) by {
                vstd::arithmetic::power::lemma_pow1(256);
                vstd::arithmetic::power::lemma_pow_adds(256, 1, (k - 1) as nat);
                vstd::arithmetic::power::lemma_pow1(256);
            }
            if x / 256 >= p {
                lemma_fundamental_div_mod(x, 256);
                assert(x >= 256 * p);
            }
        }
        lemma_le_bytes_value(b, pos + 1, x / 256, k - 1);
        lemma_fundamental_div_mod(x, 256);
    }
}

/// The bytes behind a read value are exactly its encoding.
pub proof fn lemma_le_value_bytes(b: Seq<u8>, pos: int, k: int)
    requires
        0 <= k,
        0 <= pos,
        pos + k <= b.len(),
    ensures
        le_bytes(le_value(b, pos, k), k) == b.subrange(pos, pos + k),
        0 <= le_value(b, pos, k) < vstd::arithmetic::power::pow(256, k as nat),
    decreases k,
{
    vstd::arithmetic::power::lemma_pow_positive(256, k as nat);
    if k == 0 {
        assert(le_bytes(0, 0) =~= b.subrange(pos, pos));
    } else {
        lemma_le_value_bytes(b, pos + 1, k - 1);
        let rest = le_value(b, pos + 1, k - 1);
        let x = le_value(b, pos, k);
        assert(x == b[pos] + 256 * rest);
        lemma_fundamental_div_mod_converse(x, 256, rest, b[pos] as int);
        assert(x / 256 == rest && x % 256 == b[pos] as int);
        let p = vstd::arithmetic::power::pow(256, (k - 1) as nat);
        assert(vstd::arithmetic::power::pow(256, k as nat) == 256 * p) by {
            vstd::arithmetic::power::lemma_pow1(256);
            vstd::arithmetic::power::lemma_pow_adds(256, 1, (k - 1) as nat);
        }
        assert(x <= 255 + 256 * (p - 1) < 256 * p);
        assert(le_bytes(x, k) =~= b.subrange(pos, pos + k)) by {
            assert(le_bytes(x, k) == seq![(x % 256) as u8] + le_bytes(rest, k - 1));
            lemma_le_bytes_len(rest, k - 1);
            assert forall|j: int| 0 <= j < k implies #[trigger] le_bytes(x, k)[j] == b.subrange(
                pos,
                pos + k,
            )[j] by {
                if j == 0 {
                } else {
                    assert(le_bytes(x, k)[j] == le_bytes(rest, k - 1)[j - 1]);
                    assert(le_bytes(rest, k - 1)[j - 1] == b.subrange(pos + 1, pos + k)[j - 1]);
                }
            }
        }
    }
}

/// Appends the eight little-endian bytes of `x`.
pub fn push_u64(out: &mut Vec<u8>, x: u64)
    ensures
        final(out)@ == old(out)@ + u64_bytes(x as int),
{
    out.push((x % 256) as u8);
    out.push(((x / 0x100) % 256) as u8);
    out.push(((x / 0x10000) % 256) as u8);
    out.push(((x / 0x1000000) % 256) as u8);
    out.push(((x / 0x100000000) % 256) as u8);
    out.push(((x / 0x10000000000) % 256) as u8);
    out.push(((x / 0x1000000000000) % 256) as u8);
    out.push(((x / 0x100000000000000) % 256) as u8);
    proof {
        reveal_with_fuel(le_bytes, 9);
        let xi = x as int;
        lemma_div_denominator(xi, 0x100, 0x100);
        lemma_div_denominator(xi, 0x10000, 0x100);
        lemma_div_denominator(xi, 0x1000000, 0x100);
        lemma_div_denominator(xi, 0x100000000, 0x100);
        lemma_div_denominator(xi, 0x10000000000, 0x100);
        lemma_div_denominator(xi, 0x1000000000000, 0x100);
        lemma_div_denominator(xi, 0x100000000000000, 0x100);
        assert(final(out)@ =~= old(out)@ + u64_bytes(x as int));
    }
}

/// Reads the eight little-endian bytes at `pos` back into a value.
pub fn read_u64(b: &Vec<u8>, pos: usize) -> (r: u64)
    requires
        pos + 8 <= b@.len(),
    ensures
        r as int == le_value(b@, pos as int, 8),
{
    let n = b.len();
    let b0 = b[pos] as u64;
    let b1 = b[pos + 1] as u64;
    let b2 = b[pos + 2] as u64;
    let b3 = b[pos + 3] as u64;
    let b4 = b[pos + 4] as u64;
    let b5 = b[pos + 5] as u64;
    let b6 = b[pos + 6] as u64;
    let b7 = b[pos + 7] as u64;
    proof {
        reveal_with_fuel(le_value, 9);
    }
    b0 + 0x100 * b1 + 0x10000 * b2 + 0x1000000 * b3 + 0x100000000 * b4 + 0x10000000000 * b5
        + 0x1000000000000 * b6 + 0x100000000000000 * b7
}

/// The bytes of one string: its length, then one value per character.
pub open spec fn chars_bytes(s: Seq<char>) -> Seq<u8>
    decreases s.len(),
{
    if s.len() == 0 {
        Seq::empty()
    } else {
        u64_bytes((s[0] as u32) as int) + chars_bytes(s.drop_first())
    }
}

/// The bytes of one store entry: its key parts, its counts, its suffix.
pub open spec fn entry_bytes(k: SuffixV, c: Count) -> Seq<u8> {
    u64_bytes(
        if k.target_has_support {
            1
        } else {
            0
        },
    ) + u64_bytes(k.last_char as int) + u64_bytes(c.postnoun as int) + u64_bytes(
        c.postother as int,
    ) + u64_bytes(k.suffix.len() as int) + chars_bytes(k.suffix)
}

/// The bytes of a sequence of entries, in order.
pub open spec fn entries_bytes(s: Seq<(SuffixV, Count)>) -> Seq<u8>
    decreases s.len(),
{
    if s.len() == 0 {
        Seq::empty()
    } else {
        entry_bytes(s[0].0, s[0].1) + entries_bytes(s.drop_first())
    }
}

/// The bytes of a whole model snapshot: the two global tallies, the entry
/// count, then every entry.
pub open spec fn snapshot_bytes(s: Seq<(SuffixV, Count)>, noun: u32, other: u32) -> Seq<u8> {
    u64_bytes(noun as int) + u64_bytes(other as int) + u64_bytes(s.len() as int) + entries_bytes(s)
}

/// Appending one character extends the byte string at its end.
pub proof fn lemma_chars_bytes_push(s: Seq<char>, c: char)
    ensures
        chars_bytes(s.push(c)) == chars_bytes(s) + u64_bytes((c as u32) as int),
    decreases s.len(),
{
    if s.len() == 0 {
        assert(s.push(c)[0] == c);
        assert(s.push(c).drop_first() =~= Seq::<char>::empty());
        assert(chars_bytes(s.push(c)) == u64_bytes((c as u32) as int) + chars_bytes(
            Seq::<char>::empty(),
        ));
        assert(chars_bytes(s.push(c)) =~= chars_bytes(s) + u64_bytes((c as u32) as int));
    } else {
        assert(s.push(c).drop_first() =~= s.drop_first().push(c));
        lemma_chars_bytes_push(s.drop_first(), c);
        assert(s.push(c)[0] == s[0]);
        assert(chars_bytes(s.push(c)) == u64_bytes((s[0] as u32) as int) + (chars_bytes(
            s.drop_first(),
        ) + u64_bytes((c as u32) as int)));
        assert(chars_bytes(s) == u64_bytes((s[0] as u32) as int) + chars_bytes(s.drop_first()));
        assert(u64_bytes((s[0] as u32) as int) + (chars_bytes(s.drop_first()) + u64_bytes(
            (c as u32) as int,
        )) =~= (u64_bytes((s[0] as u32) as int) + chars_bytes(s.drop_first())) + u64_bytes(
            (c as u32) as int,
        ));
    }
}

/// Appending one entry extends the byte string at its end.
pub proof fn lemma_entries_bytes_push(s: Seq<(SuffixV, Count)>, e: (SuffixV, Count))
    ensures
        entries_bytes(s.push(e)) == entries_bytes(s) + entry_bytes(e.0, e.1),
    decreases s.len(),
{
    if s.len() == 0 {
        assert(s.push(e)[0] == e);
        assert(s.push(e).drop_first() =~= Seq::<(SuffixV, Count)>::empty());
        assert(entries_bytes(s.push(e)) == entry_bytes(e.0, e.1) + entries_bytes(
            Seq::<(SuffixV, Count)>::empty(),
        ));
        assert(entries_bytes(s.push(e)) =~= entries_bytes(s) + entry_bytes(e.0, e.1));
    } else {
        assert(s.push(e).drop_first() =~= s.drop_first().push(e));
        lemma_entries_bytes_push(s.drop_first(), e);
        assert(s.push(e)[0] == s[0]);
        assert(entries_bytes(s.push(e)) == entry_bytes(s[0].0, s[0].1) + (entries_bytes(
            s.drop_first(),
        ) + entry_bytes(e.0, e.1)));
        assert(entries_bytes(s) == entry_bytes(s[0].0, s[0].1) + entries_bytes(s.drop_first()));
        assert(entry_bytes(s[0].0, s[0].1) + (entries_bytes(s.drop_first()) + entry_bytes(
            e.0,
            e.1,
        )) =~= (entry_bytes(s[0].0, s[0].1) + entries_bytes(s.drop_first())) + entry_bytes(
            e.0,
            e.1,
        ));
    }
}

/// Writes a whole model to bytes, as `snapshot_bytes` says.
#[verifier::rlimit(60)]
pub fn encode_model(state: &State) -> (r: Vec<u8>)
    requires
        state.inv(),
    ensures
        r@ == snapshot_bytes(state.entry_views(), state@.noun_count, state@.other_count),
{
    let entries = state.entries();
    let ghost evs = state.entry_views();
    let mut out: Vec<u8> = Vec::new();
    push_u64(&mut out, state.noun_count() as u64);
    push_u64(&mut out, state.other_count() as u64);
    push_u64(&mut out, entries.len() as u64);
    let ghost header = out@;
    let n = entries.len();
    let mut i: usize = 0;
    while i < n
        invariant
            i <= n,
            n == entries@.len(),
            evs == store_entries(entries@),
            out@ == header + entries_bytes(evs.subrange(0, i as int)),
        decreases n - i,
    {
        let (key, count) = &entries[i];
        let ghost pre = out@;
        let (sup, last_char, suffix) = key.parts();
        push_u64(&mut out, if sup { 1 } else { 0 });
        push_u64(&mut out, last_char as u64);
        push_u64(&mut out, count.postnoun as u64);
        push_u64(&mut out, count.postother as u64);
        let cs = str_chars(suffix.as_str());
        push_u64(&mut out, cs.len() as u64);
        let m = cs.len();
        let ghost csv = cs@;
        let ghost mid = out@;
        let mut j: usize = 0;
        while j < m
            invariant
                j <= m,
                m == csv.len(),
                cs@ == csv,
                out@ == mid + chars_bytes(csv.subrange(0, j as int)),
            decreases m - j,
        {
            let cv = cs[j] as u32;
            push_u64(&mut out, cv as u64);
            proof {
                assert(csv.subrange(0, j + 1) =~= csv.subrange(0, j as int).push(csv[j as int]));
                lemma_chars_bytes_push(csv.subrange(0, j as int), csv[j as int]);
                assert(out@ =~= mid + chars_bytes(csv.subrange(0, j + 1)));
            }
            j = j + 1;
        }
        proof {
            assert(csv.subrange(0, m as int) =~= csv);
            assert(evs[i as int] == (key@, *count));
            assert(out@ =~= pre + entry_bytes(evs[i as int].0, evs[i as int].1));
            assert(evs.subrange(0, i + 1) =~= evs.subrange(0, i as int).push(evs[i as int]));
            lemma_entries_bytes_push(evs.subrange(0, i as int), evs[i as int]);
        }
        i = i + 1;
    }
    proof {
        assert(evs.subrange(0, n as int) =~= evs);
    }
    out
}


/// Whether `b` is the snapshot of the well-formed model `(es, n, o)`.
pub open spec fn is_snapshot_of(b: Seq<u8>, es: Seq<(SuffixV, Count)>, n: u32, o: u32) -> bool {
    wf_entries(es) && es.len() < 0x10000000000000000 && b == snapshot_bytes(es, n, o)
}

/// Reading eight bytes that encode a value yields the value.
proof fn lemma_u64_read_back(b: Seq<u8>, pos: int, x: int)
    requires
        0 <= x < 0x10000000000000000,
        0 <= pos,
        pos + 8 <= b.len(),
        b.subrange(pos, pos + 8) == u64_bytes(x),
    ensures
        le_value(b, pos, 8) == x,
{
    assert(vstd::arithmetic::power::pow(256, 8) == 0x10000000000000000) by {
        reveal_with_fuel(vstd::arithmetic::power::pow, 9);
    }
    lemma_le_bytes_value(b, pos, x, 8);
}

/// A region holding a concatenation splits at the parts' boundary.
proof fn lemma_concat_parts(b: Seq<u8>, pos: int, x: Seq<u8>, y: Seq<u8>)
    requires
        0 <= pos,
        pos + x.len() + y.len() <= b.len(),
        b.subrange(pos, pos + x.len() + y.len()) == x + y,
    ensures
        b.subrange(pos, pos + x.len()) == x,
        b.subrange(pos + x.len(), pos + x.len() + y.len()) == y,
{
    assert forall|j: int| 0 <= j < x.len() implies #[trigger] b.subrange(pos, pos + x.len())[j]
        == x[j] by {
        assert(b.subrange(pos, pos + x.len() + y.len())[j] == b[pos + j]);
    }
    assert(b.subrange(pos, pos + x.len()) =~= x);
    assert forall|j: int| 0 <= j < y.len() implies #[trigger] b.subrange(
        pos + x.len(),
        pos + x.len() + y.len(),
    )[j] == y[j] by {
        assert(b.subrange(pos, pos + x.len() + y.len())[x.len() + j] == b[pos + x.len() + j]);
        assert((x + y)[x.len() + j] == y[j]);
    }
    assert(b.subrange(pos + x.len(), pos + x.len() + y.len()) =~= y);
}

/// Entry byte strings split with the entry sequence.
proof fn lemma_entries_bytes_split(s: Seq<(SuffixV, Count)>, k: int)
    requires
        0 <= k <= s.len(),
    ensures
        entries_bytes(s) == entries_bytes(s.subrange(0, k)) + entries_bytes(
            s.subrange(k, s.len() as int),
        ),
    decreases k,
{
    if k == 0 {
        assert(s.subrange(0, 0) =~= Seq::<(SuffixV, Count)>::empty());
        assert(s.subrange(0, s.len() as int) =~= s);
        assert(entries_bytes(s) =~= entries_bytes(s.subrange(0, 0)) + entries_bytes(
            s.subrange(0, s.len() as int),
        ));
    } else {
        lemma_entries_bytes_split(s.drop_first(), k - 1);
        assert(s.drop_first().subrange(0, k - 1) =~= s.subrange(0, k).drop_first());
        assert(s.drop_first().subrange(k - 1, s.drop_first().len() as int) =~= s.subrange(
            k,
            s.len() as int,
        ));
        assert(s.subrange(0, k)[0] == s[0]);
        let e0 = entry_bytes(s[0].0, s[0].1);
        assert(entries_bytes(s.subrange(0, k)) == e0 + entries_bytes(
            s.subrange(0, k).drop_first(),
        ));
        assert(e0 + (entries_bytes(s.subrange(0, k).drop_first()) + entries_bytes(
            s.subrange(k, s.len() as int),
        )) =~= (e0 + entries_bytes(s.subrange(0, k).drop_first())) + entries_bytes(
            s.subrange(k, s.len() as int),
        ));
    }
}

/// Character byte strings split with the character sequence.
proof fn lemma_chars_bytes_split(s: Seq<char>, k: int)
    requires
        0 <= k <= s.len(),
    ensures
        chars_bytes(s) == chars_bytes(s.subrange(0, k)) + chars_bytes(
            s.subrange(k, s.len() as int),
        ),
    decreases k,
{
    if k == 0 {
        assert(s.subrange(0, 0) =~= Seq::<char>::empty());
        assert(s.subrange(0, s.len() as int) =~= s);
        assert(chars_bytes(s) =~= chars_bytes(s.subrange(0, 0)) + chars_bytes(
            s.subrange(0, s.len() as int),
        ));
    } else {
        lemma_chars_bytes_split(s.drop_first(), k - 1);
        assert(s.drop_first().subrange(0, k - 1) =~= s.subrange(0, k).drop_first());
        assert(s.drop_first().subrange(k - 1, s.drop_first().len() as int) =~= s.subrange(
            k,
            s.len() as int,
        ));
        assert(s.subrange(0, k)[0] == s[0]);
        let e0 = u64_bytes((s[0] as u32) as int);
        assert(chars_bytes(s.subrange(0, k)) == e0 + chars_bytes(s.subrange(0, k).drop_first()));
        assert(e0 + (chars_bytes(s.subrange(0, k).drop_first()) + chars_bytes(
            s.subrange(k, s.len() as int),
        )) =~= (e0 + chars_bytes(s.subrange(0, k).drop_first())) + chars_bytes(
            s.subrange(k, s.len() as int),
        ));
    }
}

/// The header of snapshot bytes reads back as the snapshot's tallies and
/// entry count, and the rest is the entries' bytes.
proof fn lemma_snapshot_header(b: Seq<u8>, es: Seq<(SuffixV, Count)>, n: u32, o: u32)
    requires
        is_snapshot_of(b, es, n, o),
    ensures
        b.len() == 24 + entries_bytes(es).len(),
        le_value(b, 0, 8) == n as int,
        le_value(b, 8, 8) == o as int,
        le_value(b, 16, 8) == es.len() as int,
        b.subrange(24, b.len() as int) == entries_bytes(es),
{
    lemma_le_bytes_len(n as int, 8);
    lemma_le_bytes_len(o as int, 8);
    lemma_le_bytes_len(es.len() as int, 8);
    let rest1 = u64_bytes(o as int) + (u64_bytes(es.len() as int) + entries_bytes(es));
    assert(b =~= u64_bytes(n as int) + rest1);
    assert(b.subrange(0, b.len() as int) =~= b);
    lemma_concat_parts(b, 0, u64_bytes(n as int), rest1);
    let rest2 = u64_bytes(es.len() as int) + entries_bytes(es);
    lemma_concat_parts(b, 8, u64_bytes(o as int), rest2);
    lemma_concat_parts(b, 16, u64_bytes(es.len() as int), entries_bytes(es));
    lemma_u64_read_back(b, 0, n as int);
    lemma_u64_read_back(b, 8, o as int);
    lemma_u64_read_back(b, 16, es.len() as int);
}

/// Inside snapshot bytes, entry `k` sits where its predecessors end: its
/// five fields read back exactly and its suffix characters follow.
#[verifier::spinoff_prover]
#[verifier::rlimit(100)]
proof fn lemma_entry_region(b: Seq<u8>, es: Seq<(SuffixV, Count)>, n: u32, o: u32, k: int, pos: int)
    requires
        is_snapshot_of(b, es, n, o),
        0 <= k < es.len(),
        pos == 24 + entries_bytes(es.subrange(0, k)).len(),
    ensures
        pos + 40 + 8 * es[k].0.suffix.len() <= b.len(),
        le_value(b, pos, 8) == if es[k].0.target_has_support {
            1int
        } else {
            0int
        },
        le_value(b, pos + 8, 8) == es[k].0.last_char as int,
        le_value(b, pos + 16, 8) == es[k].1.postnoun as int,
        le_value(b, pos + 24, 8) == es[k].1.postother as int,
        le_value(b, pos + 32, 8) == es[k].0.suffix.len() as int,
        b.subrange(pos + 40, pos + 40 + 8 * es[k].0.suffix.len()) == chars_bytes(es[k].0.suffix),
        24 + entries_bytes(es.subrange(0, k + 1)).len() == pos + 40 + 8 * es[k].0.suffix.len(),
{
    lemma_snapshot_header(b, es, n, o);
    lemma_entries_bytes_split(es, k);
    lemma_concat_parts(
        b,
        24,
        entries_bytes(es.subrange(0, k)),
        entries_bytes(es.subrange(k, es.len() as int)),
    );
    assert(es.subrange(k, es.len() as int)[0] == es[k]);
    assert(es.subrange(k, es.len() as int).drop_first() =~= es.subrange(k + 1, es.len() as int));
    let ek = entry_bytes(es[k].0, es[k].1);
    assert(entries_bytes(es.subrange(k, es.len() as int)) == ek + entries_bytes(
        es.subrange(k + 1, es.len() as int),
    ));
    lemma_entry_bytes_len(es[k].0, es[k].1);
    lemma_concat_parts(b, pos, ek, entries_bytes(es.subrange(k + 1, es.len() as int)));
    let flag: int = if es[k].0.target_has_support {
        1
    } else {
        0
    };
    let f = u64_bytes(flag);
    let lc = u64_bytes(es[k].0.last_char as int);
    let pn = u64_bytes(es[k].1.postnoun as int);
    let po = u64_bytes(es[k].1.postother as int);
    let sl = u64_bytes(es[k].0.suffix.len() as int);
    let cb = chars_bytes(es[k].0.suffix);
    lemma_le_bytes_len(flag, 8);
    lemma_le_bytes_len(es[k].0.last_char as int, 8);
    lemma_le_bytes_len(es[k].1.postnoun as int, 8);
    lemma_le_bytes_len(es[k].1.postother as int, 8);
    lemma_le_bytes_len(es[k].0.suffix.len() as int, 8);
    lemma_chars_bytes_len(es[k].0.suffix);
    assert(ek =~= f + (lc + (pn + (po + (sl + cb)))));
    lemma_concat_parts(b, pos, f, lc + (pn + (po + (sl + cb))));
    lemma_concat_parts(b, pos + 8, lc, pn + (po + (sl + cb)));
    lemma_concat_parts(b, pos + 16, pn, po + (sl + cb));
    lemma_concat_parts(b, pos + 24, po, sl + cb);
    lemma_concat_parts(b, pos + 32, sl, cb);
    lemma_u64_read_back(b, pos, flag);
    lemma_u64_read_back(b, pos + 8, es[k].0.last_char as int);
    lemma_u64_read_back(b, pos + 16, es[k].1.postnoun as int);
    lemma_u64_read_back(b, pos + 24, es[k].1.postother as int);
    assert(es[k].0.suffix.len() < 0x10000000000000000);
    lemma_u64_read_back(b, pos + 32, es[k].0.suffix.len() as int);
    assert(es.subrange(0, k + 1) =~= es.subrange(0, k).push(es[k]));
    lemma_entries_bytes_push(es.subrange(0, k), es[k]);
}

/// Inside a character region, character `j` reads back as its code point.
proof fn lemma_char_read(b: Seq<u8>, pos: int, s: Seq<char>, j: int)
    requires
        0 <= j < s.len(),
        0 <= pos,
        pos + 8 * s.len() <= b.len(),
        b.subrange(pos, pos + 8 * s.len()) == chars_bytes(s),
    ensures
        le_value(b, pos + 8 * j, 8) == (s[j] as u32) as int,
{
    lemma_chars_bytes_len(s);
    lemma_chars_bytes_split(s, j);
    lemma_chars_bytes_len(s.subrange(0, j));
    lemma_chars_bytes_len(s.subrange(j, s.len() as int));
    lemma_concat_parts(
        b,
        pos,
        chars_bytes(s.subrange(0, j)),
        chars_bytes(s.subrange(j, s.len() as int)),
    );
    assert(s.subrange(j, s.len() as int)[0] == s[j]);
    assert(s.subrange(j, s.len() as int).drop_first() =~= s.subrange(j + 1, s.len() as int));
    assert(chars_bytes(s.subrange(j, s.len() as int)) == u64_bytes((s[j] as u32) as int)
        + chars_bytes(s.subrange(j + 1, s.len() as int)));
    lemma_le_bytes_len((s[j] as u32) as int, 8);
    lemma_chars_bytes_len(s.subrange(j + 1, s.len() as int));
    lemma_concat_parts(
        b,
        pos + 8 * j,
        u64_bytes((s[j] as u32) as int),
        chars_bytes(s.subrange(j + 1, s.len() as int)),
    );
    lemma_u64_read_back(b, pos + 8 * j, (s[j] as u32) as int);
}

/// Reads a snapshot back from bytes: a snapshot written by `encode_model`
/// always decodes, the decoded parts re-encode to exactly the given bytes
/// (so with `lemma_snapshot_injective` the model is reproduced without
/// loss), and bytes that are no snapshot are rejected.
#[verifier::rlimit(100)]
pub fn decode_model(bytes: &Vec<u8>) -> (r: Option<(Vec<(Suffix, Count)>, u32, u32)>)
    ensures
        match r {
            Some(parts) => bytes@ == snapshot_bytes(store_entries(parts.0@), parts.1, parts.2)
                && parts.0@.len() < 0x10000000000000000,
            None => true,
        },
        forall|es: Seq<(SuffixV, Count)>, n: u32, o: u32|
            #[trigger] is_snapshot_of(bytes@, es, n, o) ==> r is Some,
{
    let ghost encoded = exists|es: Seq<(SuffixV, Count)>, n: u32, o: u32|
        is_snapshot_of(bytes@, es, n, o);
    let ghost wit: (Seq<(SuffixV, Count)>, u32, u32) = choose|
        es: Seq<(SuffixV, Count)>,
        n: u32,
        o: u32,
    | is_snapshot_of(bytes@, es, n, o);
    let ghost ges = wit.0;
    let ghost gn = wit.1;
    let ghost go = wit.2;
    proof {
        if encoded {
            assert(is_snapshot_of(bytes@, ges, gn, go));
            lemma_snapshot_header(bytes@, ges, gn, go);
        }
    }
    let total = bytes.len();
    if total < 24 {
        proof {
            assert(!encoded);
        }
        return None;
    }
    let noun64 = read_u64(bytes, 0);
    let other64 = read_u64(bytes, 8);
    let cnt64 = read_u64(bytes, 16);
    if noun64 > u32::MAX as u64 || other64 > u32::MAX as u64 {
        proof {
            assert(!encoded);
        }
        return None;
    }
    let noun = noun64 as u32;
    let other = other64 as u32;
    proof {
        lemma_le_value_bytes(bytes@, 0, 8);
        lemma_le_value_bytes(bytes@, 8, 8);
        lemma_le_value_bytes(bytes@, 16, 8);
        assert(bytes@.subrange(0, 24) =~= bytes@.subrange(0, 8) + bytes@.subrange(8, 16)
            + bytes@.subrange(16, 24));
        assert(store_entries(Seq::<(Suffix, Count)>::empty()) =~= Seq::<(SuffixV, Count)>::empty());
        if encoded {
            assert(entries_bytes(ges.subrange(0, 0)) =~= entries_bytes(
                Seq::<(SuffixV, Count)>::empty(),
            ));
        }
    }
    let ghost header = u64_bytes(noun as int) + u64_bytes(other as int) + u64_bytes(cnt64 as int);
    let mut pos: usize = 24;
    let mut entries: Vec<(Suffix, Count)> = Vec::new();
    let mut k: u64 = 0;
    while k < cnt64
        invariant
            24 <= pos <= total,
            total == bytes@.len(),
            k <= cnt64,
            entries@.len() == k,
            header == u64_bytes(noun as int) + u64_bytes(other as int) + u64_bytes(cnt64 as int),
            bytes@.subrange(0, pos as int) == header + entries_bytes(store_entries(entries@)),
            encoded == (exists|es: Seq<(SuffixV, Count)>, n: u32, o: u32|
                is_snapshot_of(bytes@, es, n, o)),
            encoded ==> is_snapshot_of(bytes@, ges, gn, go),
            encoded ==> gn == noun && go == other && cnt64 as int == ges.len(),
            encoded ==> pos as int == 24 + entries_bytes(ges.subrange(0, k as int)).len(),
        decreases cnt64 - k,
    {
        let ghost evs0 = store_entries(entries@);
        let pos0 = pos;
        proof {
            if encoded {
                lemma_entry_region(bytes@, ges, gn, go, k as int, pos as int);
            }
        }
        if total - pos < 40 {
            proof {
                assert(!encoded);
            }
            return None;
        }
        let flag = read_u64(bytes, pos);
        if flag > 1 {
            proof {
                assert(!encoded);
            }
            return None;
        }
        let last64 = read_u64(bytes, pos + 8);
        let pn64 = read_u64(bytes, pos + 16);
        let po64 = read_u64(bytes, pos + 24);
        let slen = read_u64(bytes, pos + 32);
        if last64 > u32::MAX as u64 || pn64 > u32::MAX as u64 || po64 > u32::MAX as u64 {
            proof {
                assert(!encoded);
            }
            return None;
        }
        proof {
            lemma_le_value_bytes(bytes@, pos as int, 8);
            lemma_le_value_bytes(bytes@, pos + 8, 8);
            lemma_le_value_bytes(bytes@, pos + 16, 8);
            lemma_le_value_bytes(bytes@, pos + 24, 8);
            lemma_le_value_bytes(bytes@, pos + 32, 8);
            assert(bytes@.subrange(pos0 as int, pos0 + 40) =~= bytes@.subrange(
                pos0 as int,
                pos0 + 8,
            ) + bytes@.subrange(pos0 + 8, pos0 + 16) + bytes@.subrange(pos0 + 16, pos0 + 24)
                + bytes@.subrange(pos0 + 24, pos0 + 32) + bytes@.subrange(pos0 + 32, pos0 + 40));
        }
        pos = pos + 40;
        let ghost char_start = pos as int;
        let mut sfx = empty_string();
        let mut cidx: u64 = 0;
        while cidx < slen
            invariant
                24 <= pos0,
                pos0 + 40 == char_start,
                char_start <= pos <= total,
                total == bytes@.len(),
                cidx <= slen,
                sfx@.len() == cidx,
                pos == char_start + 8 * cidx,
                bytes@.subrange(char_start, pos as int) == chars_bytes(sfx@),
                encoded == (exists|es: Seq<(SuffixV, Count)>, n: u32, o: u32|
                    is_snapshot_of(bytes@, es, n, o)),
                encoded ==> 0 <= k < ges.len() && slen as int == ges[k as int].0.suffix.len()
                    && bytes@.subrange(
                    char_start,
                    char_start + 8 * ges[k as int].0.suffix.len(),
                ) == chars_bytes(ges[k as int].0.suffix) && char_start + 8 * ges[
                    k as int
                ].0.suffix.len() <= total,
            decreases slen - cidx,
        {
            proof {
                if encoded {
                    lemma_char_read(
                        bytes@,
                        char_start,
                        ges[k as int].0.suffix,
                        cidx as int,
                    );
                }
            }
            if total - pos < 8 {
                proof {
                    assert(!encoded);
                }
                return None;
            }
            let cu = read_u64(bytes, pos);
            if cu > 0x10FFFF {
                proof {
                    assert(!encoded) by {
                        if encoded {
                            let gc = ges[k as int].0.suffix[cidx as int];
                            assert(cu as int == (gc as u32) as int);
                            vstd::utf8::char_is_scalar(gc);
                        }
                    }
                }
                return None;
            }
            let c = match char_from_u32(cu as u32) {
                Some(c) => c,
                None => {
                    proof {
                        assert(!encoded) by {
                            if encoded {
                                let gc = ges[k as int].0.suffix[cidx as int];
                                assert(cu as int == (gc as u32) as int);
                                vstd::utf8::char_is_scalar(gc);
                                assert(vstd::utf8::is_scalar(gc as u32));
                            }
                        }
                    }
                    return None;
                },
            };
            proof {
                lemma_le_value_bytes(bytes@, pos as int, 8);
                assert((c as u32) as int == cu as int);
                lemma_chars_bytes_push(sfx@, c);
                assert(bytes@.subrange(char_start, pos + 8) =~= bytes@.subrange(
                    char_start,
                    pos as int,
                ) + bytes@.subrange(pos as int, pos + 8));
            }
            push_char(&mut sfx, c);
            pos = pos + 8;
            cidx = cidx + 1;
        }
        let sup = flag == 1;
        let count = Count { postnoun: pn64 as u32, postother: po64 as u32 };
        let ghost keyv = SuffixV { target_has_support: sup, last_char: last64 as u32, suffix: sfx@ };
        proof {
            assert(bytes@.subrange(pos0 as int, pos as int) =~= bytes@.subrange(
                pos0 as int,
                pos0 + 40,
            ) + bytes@.subrange(char_start, pos as int));
            assert(u64_bytes(if keyv.target_has_support { 1int } else { 0int }) == bytes@.subrange(
                pos0 as int,
                pos0 + 8,
            ));
            assert(bytes@.subrange(pos0 as int, pos as int) =~= entry_bytes(keyv, count));
        }
        let key = Suffix::new(sup, last64 as u32, sfx);
        entries.push((key, count));
        k = k + 1;
        proof {
            assert(store_entries(entries@) =~= evs0.push((keyv, count)));
            lemma_entries_bytes_push(evs0, (keyv, count));
            assert(bytes@.subrange(0, pos as int) =~= bytes@.subrange(0, pos0 as int)
                + bytes@.subrange(pos0 as int, pos as int));
        }
    }
    if pos != total {
        proof {
            assert(!encoded) by {
                if encoded {
                    assert(ges.subrange(0, k as int) =~= ges);
                    lemma_snapshot_header(bytes@, ges, gn, go);
                }
            }
        }
        return None;
    }
    proof {
        assert(bytes@.subrange(0, total as int) =~= bytes@);
        assert(store_entries(entries@).len() == cnt64 as int);
    }
    Some((entries, noun, other))
}

/// Entries whose suffix lengths fit the length field.
pub open spec fn wf_entries(s: Seq<(SuffixV, Count)>) -> bool {
    forall|i: int| 0 <= i < s.len() ==> (#[trigger] s[i].0.suffix).len() < 0x10000000000000000
}

/// Eight bytes determine their value.
pub proof fn lemma_u64_bytes_injective(x: int, y: int)
    requires
        0 <= x < 0x10000000000000000,
        0 <= y < 0x10000000000000000,
        u64_bytes(x) == u64_bytes(y),
    ensures
        x == y,
{
    let b = u64_bytes(x);
    lemma_le_bytes_len(x, 8);
    assert(b.subrange(0, 8) =~= u64_bytes(x));
    assert(vstd::arithmetic::power::pow(256, 8) == 0x10000000000000000) by {
        reveal_with_fuel(vstd::arithmetic::power::pow, 9);
    }
    lemma_le_bytes_value(b, 0, x, 8);
    lemma_le_bytes_value(b, 0, y, 8);
}

/// A character string is determined by its bytes.
pub proof fn lemma_chars_bytes_len(s: Seq<char>)
    ensures
        chars_bytes(s).len() == 8 * s.len(),
    decreases s.len(),
{
    if s.len() > 0 {
        lemma_le_bytes_len((s[0] as u32) as int, 8);
        lemma_chars_bytes_len(s.drop_first());
    }
}

/// Two strings with the same bytes are the same string.
pub proof fn lemma_chars_bytes_injective(s1: Seq<char>, s2: Seq<char>)
    requires
        chars_bytes(s1) == chars_bytes(s2),
    ensures
        s1 == s2,
    decreases s1.len(),
{
    lemma_chars_bytes_len(s1);
    lemma_chars_bytes_len(s2);
    if s1.len() == 0 {
        assert(s1 =~= s2);
    } else {
        let h1 = u64_bytes((s1[0] as u32) as int);
        let h2 = u64_bytes((s2[0] as u32) as int);
        lemma_le_bytes_len((s1[0] as u32) as int, 8);
        lemma_le_bytes_len((s2[0] as u32) as int, 8);
        assert(h1 =~= h2) by {
            assert forall|j: int| 0 <= j < 8 implies #[trigger] h1[j] == h2[j] by {
                assert(chars_bytes(s1)[j] == h1[j]);
                assert(chars_bytes(s2)[j] == h2[j]);
            }
        }
        lemma_u64_bytes_injective((s1[0] as u32) as int, (s2[0] as u32) as int);
        vstd::utf8::char_u32_cast(s1[0], s1[0] as u32);
        vstd::utf8::char_u32_cast(s2[0], s2[0] as u32);
        assert(s1[0] == s2[0]);
        assert(chars_bytes(s1.drop_first()) =~= chars_bytes(s2.drop_first())) by {
            assert forall|j: int| 0 <= j < chars_bytes(s1.drop_first()).len() implies #[trigger]
                chars_bytes(s1.drop_first())[j] == chars_bytes(s2.drop_first())[j] by {
                assert(chars_bytes(s1)[8 + j] == chars_bytes(s1.drop_first())[j]);
                assert(chars_bytes(s2)[8 + j] == chars_bytes(s2.drop_first())[j]);
            }
        }
        lemma_chars_bytes_injective(s1.drop_first(), s2.drop_first());
        assert forall|j: int| 0 <= j < s1.len() implies #[trigger] s1[j] == s2[j] by {
            if j > 0 {
                assert(s1.drop_first()[j - 1] == s1[j]);
                assert(s2.drop_first()[j - 1] == s2[j]);
            }
        }
        assert(s1 =~= s2);
    }
}

/// One entry's bytes are this long.
pub proof fn lemma_entry_bytes_len(k: SuffixV, c: Count)
    ensures
        entry_bytes(k, c).len() == 40 + 8 * k.suffix.len(),
{
    lemma_le_bytes_len(if k.target_has_support { 1int } else { 0int }, 8);
    lemma_le_bytes_len(k.last_char as int, 8);
    lemma_le_bytes_len(c.postnoun as int, 8);
    lemma_le_bytes_len(c.postother as int, 8);
    lemma_le_bytes_len(k.suffix.len() as int, 8);
    lemma_chars_bytes_len(k.suffix);
}

/// An entry is determined by its bytes.
#[verifier::spinoff_prover]
#[verifier::rlimit(100)]
proof fn lemma_entry_bytes_injective(k1: SuffixV, c1: Count, k2: SuffixV, c2: Count)
    requires
        entry_bytes(k1, c1) == entry_bytes(k2, c2),
        k1.suffix.len() < 0x10000000000000000,
        k2.suffix.len() < 0x10000000000000000,
    ensures
        k1 == k2,
        c1 == c2,
{
    lemma_entry_bytes_len(k1, c1);
    lemma_entry_bytes_len(k2, c2);
    let b1 = entry_bytes(k1, c1);
    let b2 = entry_bytes(k2, c2);
    let f1: int = if k1.target_has_support { 1 } else { 0 };
    let f2: int = if k2.target_has_support { 1 } else { 0 };
    lemma_le_bytes_len(f1, 8);
    lemma_le_bytes_len(f2, 8);
    lemma_le_bytes_len(k1.last_char as int, 8);
    lemma_le_bytes_len(k2.last_char as int, 8);
    lemma_le_bytes_len(c1.postnoun as int, 8);
    lemma_le_bytes_len(c2.postnoun as int, 8);
    lemma_le_bytes_len(c1.postother as int, 8);
    lemma_le_bytes_len(c2.postother as int, 8);
    lemma_le_bytes_len(k1.suffix.len() as int, 8);
    lemma_le_bytes_len(k2.suffix.len() as int, 8);
    assert(u64_bytes(f1) =~= u64_bytes(f2)) by {
        assert forall|j: int| 0 <= j < 8 implies #[trigger] u64_bytes(f1)[j] == u64_bytes(f2)[j]
            by {
            assert(b1[j] == u64_bytes(f1)[j]);
            assert(b2[j] == u64_bytes(f2)[j]);
        }
    }
    lemma_u64_bytes_injective(f1, f2);
    assert(u64_bytes(k1.last_char as int) =~= u64_bytes(k2.last_char as int)) by {
        assert forall|j: int| 0 <= j < 8 implies #[trigger] u64_bytes(k1.last_char as int)[j]
            == u64_bytes(k2.last_char as int)[j] by {
            assert(b1[8 + j] == u64_bytes(k1.last_char as int)[j]);
            assert(b2[8 + j] == u64_bytes(k2.last_char as int)[j]);
        }
    }
    lemma_u64_bytes_injective(k1.last_char as int, k2.last_char as int);
    assert(u64_bytes(c1.postnoun as int) =~= u64_bytes(c2.postnoun as int)) by {
        assert forall|j: int| 0 <= j < 8 implies #[trigger] u64_bytes(c1.postnoun as int)[j]
            == u64_bytes(c2.postnoun as int)[j] by {
            assert(b1[16 + j] == u64_bytes(c1.postnoun as int)[j]);
            assert(b2[16 + j] == u64_bytes(c2.postnoun as int)[j]);
        }
    }
    lemma_u64_bytes_injective(c1.postnoun as int, c2.postnoun as int);
    assert(u64_bytes(c1.postother as int) =~= u64_bytes(c2.postother as int)) by {
        assert forall|j: int| 0 <= j < 8 implies #[trigger] u64_bytes(c1.postother as int)[j]
            == u64_bytes(c2.postother as int)[j] by {
            assert(b1[24 + j] == u64_bytes(c1.postother as int)[j]);
            assert(b2[24 + j] == u64_bytes(c2.postother as int)[j]);
        }
    }
    lemma_u64_bytes_injective(c1.postother as int, c2.postother as int);
    assert(u64_bytes(k1.suffix.len() as int) =~= u64_bytes(k2.suffix.len() as int)) by {
        assert forall|j: int| 0 <= j < 8 implies #[trigger] u64_bytes(k1.suffix.len() as int)[j]
            == u64_bytes(k2.suffix.len() as int)[j] by {
            assert(b1[32 + j] == u64_bytes(k1.suffix.len() as int)[j]);
            assert(b2[32 + j] == u64_bytes(k2.suffix.len() as int)[j]);
        }
    }
    lemma_u64_bytes_injective(k1.suffix.len() as int, k2.suffix.len() as int);
    lemma_chars_bytes_len(k1.suffix);
    lemma_chars_bytes_len(k2.suffix);
    assert(chars_bytes(k1.suffix) =~= chars_bytes(k2.suffix)) by {
        assert forall|j: int| 0 <= j < chars_bytes(k1.suffix).len() implies #[trigger]
            chars_bytes(k1.suffix)[j] == chars_bytes(k2.suffix)[j] by {
            assert(b1[40 + j] == chars_bytes(k1.suffix)[j]);
            assert(b2[40 + j] == chars_bytes(k2.suffix)[j]);
        }
    }
    lemma_chars_bytes_injective(k1.suffix, k2.suffix);
}

/// An entry sequence is determined by its bytes, given how many entries it
/// holds.
#[verifier::spinoff_prover]
#[verifier::rlimit(100)]
proof fn lemma_entries_bytes_injective(s1: Seq<(SuffixV, Count)>, s2: Seq<(SuffixV, Count)>)
    requires
        entries_bytes(s1) == entries_bytes(s2),
        s1.len() == s2.len(),
        wf_entries(s1),
        wf_entries(s2),
    ensures
        s1 == s2,
    decreases s1.len(),
{
    if s1.len() == 0 {
        assert(s1 =~= s2);
    } else {
        let e1 = entry_bytes(s1[0].0, s1[0].1);
        let e2 = entry_bytes(s2[0].0, s2[0].1);
        lemma_entry_bytes_len(s1[0].0, s1[0].1);
        lemma_entry_bytes_len(s2[0].0, s2[0].1);
        let l1: int = if s1[0].0.suffix.len() <= s2[0].0.suffix.len() {
            s1[0].0.suffix.len() as int
        } else {
            s2[0].0.suffix.len() as int
        };
        assert(u64_bytes(s1[0].0.suffix.len() as int) =~= u64_bytes(
            s2[0].0.suffix.len() as int,
        )) by {
            lemma_le_bytes_len(s1[0].0.suffix.len() as int, 8);
            lemma_le_bytes_len(s2[0].0.suffix.len() as int, 8);
            lemma_le_bytes_len(if s1[0].0.target_has_support { 1int } else { 0int }, 8);
            lemma_le_bytes_len(if s2[0].0.target_has_support { 1int } else { 0int }, 8);
            lemma_le_bytes_len(s1[0].0.last_char as int, 8);
            lemma_le_bytes_len(s2[0].0.last_char as int, 8);
            lemma_le_bytes_len(s1[0].1.postnoun as int, 8);
            lemma_le_bytes_len(s2[0].1.postnoun as int, 8);
            lemma_le_bytes_len(s1[0].1.postother as int, 8);
            lemma_le_bytes_len(s2[0].1.postother as int, 8);
            assert forall|j: int| 0 <= j < 8 implies #[trigger] u64_bytes(
                s1[0].0.suffix.len() as int,
            )[j] == u64_bytes(s2[0].0.suffix.len() as int)[j] by {
                assert(e1[32 + j] == u64_bytes(s1[0].0.suffix.len() as int)[j]);
                assert(e2[32 + j] == u64_bytes(s2[0].0.suffix.len() as int)[j]);
                assert(entries_bytes(s1)[32 + j] == e1[32 + j]);
                assert(entries_bytes(s2)[32 + j] == e2[32 + j]);
            }
        }
        lemma_u64_bytes_injective(s1[0].0.suffix.len() as int, s2[0].0.suffix.len() as int);
        assert(e1.len() == e2.len());
        assert(e1 =~= e2) by {
            assert forall|j: int| 0 <= j < e1.len() implies #[trigger] e1[j] == e2[j] by {
                assert(entries_bytes(s1)[j] == e1[j]);
                assert(entries_bytes(s2)[j] == e2[j]);
            }
        }
        lemma_entry_bytes_injective(s1[0].0, s1[0].1, s2[0].0, s2[0].1);
        assert(entries_bytes(s1) == e1 + entries_bytes(s1.drop_first()));
        assert(entries_bytes(s2) == e2 + entries_bytes(s2.drop_first()));
        assert(entries_bytes(s1.drop_first()).len() == entries_bytes(s2.drop_first()).len());
        assert(entries_bytes(s1.drop_first()) =~= entries_bytes(s2.drop_first())) by {
            assert forall|j: int| 0 <= j < entries_bytes(s1.drop_first()).len() implies
                #[trigger] entries_bytes(s1.drop_first())[j] == entries_bytes(
                s2.drop_first(),
            )[j] by {
                assert(entries_bytes(s1)[e1.len() + j] == entries_bytes(s1.drop_first())[j]);
                assert(entries_bytes(s2)[e2.len() + j] == entries_bytes(s2.drop_first())[j]);
            }
        }
        assert(wf_entries(s1.drop_first()));
        assert(wf_entries(s2.drop_first()));
        lemma_entries_bytes_injective(s1.drop_first(), s2.drop_first());
        assert forall|j: int| 0 <= j < s1.len() implies #[trigger] s1[j] == s2[j] by {
            if j > 0 {
                assert(s1.drop_first()[j - 1] == s1[j]);
                assert(s2.drop_first()[j - 1] == s2[j]);
            }
        }
        assert(s1 =~= s2);
    }
}

/// The round-trip law of the snapshot format: a byte string is the snapshot
/// of at most one model, so writing a model with `encode_model` and reading
/// the bytes back with `decode_model` reproduces its every entry, count and
/// tally, and therefore every `get` result.
#[verifier::spinoff_prover]
#[verifier::rlimit(100)]
pub proof fn lemma_snapshot_injective(
    s1: Seq<(SuffixV, Count)>,
    n1: u32,
    o1: u32,
    s2: Seq<(SuffixV, Count)>,
    n2: u32,
    o2: u32,
)
    requires
        snapshot_bytes(s1, n1, o1) == snapshot_bytes(s2, n2, o2),
        s1.len() < 0x10000000000000000,
        s2.len() < 0x10000000000000000,
        wf_entries(s1),
        wf_entries(s2),
    ensures
        s1 == s2,
        n1 == n2,
        o1 == o2,
{
    let b1 = snapshot_bytes(s1, n1, o1);
    let b2 = snapshot_bytes(s2, n2, o2);
    lemma_le_bytes_len(n1 as int, 8);
    lemma_le_bytes_len(n2 as int, 8);
    lemma_le_bytes_len(o1 as int, 8);
    lemma_le_bytes_len(o2 as int, 8);
    lemma_le_bytes_len(s1.len() as int, 8);
    lemma_le_bytes_len(s2.len() as int, 8);
    assert(u64_bytes(n1 as int) =~= u64_bytes(n2 as int)) by {
        assert forall|j: int| 0 <= j < 8 implies #[trigger] u64_bytes(n1 as int)[j] == u64_bytes(
            n2 as int,
        )[j] by {
            assert(b1[j] == u64_bytes(n1 as int)[j]);
            assert(b2[j] == u64_bytes(n2 as int)[j]);
        }
    }
    lemma_u64_bytes_injective(n1 as int, n2 as int);
    assert(u64_bytes(o1 as int) =~= u64_bytes(o2 as int)) by {
        assert forall|j: int| 0 <= j < 8 implies #[trigger] u64_bytes(o1 as int)[j] == u64_bytes(
            o2 as int,
        )[j] by {
            assert(b1[8 + j] == u64_bytes(o1 as int)[j]);
            assert(b2[8 + j] == u64_bytes(o2 as int)[j]);
        }
    }
    lemma_u64_bytes_injective(o1 as int, o2 as int);
    assert(u64_bytes(s1.len() as int) =~= u64_bytes(s2.len() as int)) by {
        assert forall|j: int| 0 <= j < 8 implies #[trigger] u64_bytes(s1.len() as int)[j]
            == u64_bytes(s2.len() as int)[j] by {
            assert(b1[16 + j] == u64_bytes(s1.len() as int)[j]);
            assert(b2[16 + j] == u64_bytes(s2.len() as int)[j]);
        }
    }
    lemma_u64_bytes_injective(s1.len() as int, s2.len() as int);
    assert(b1.len() == 24 + entries_bytes(s1).len());
    assert(b2.len() == 24 + entries_bytes(s2).len());
    assert(entries_bytes(s1).len() == entries_bytes(s2).len());
    assert(entries_bytes(s1) =~= entries_bytes(s2)) by {
        assert forall|j: int| 0 <= j < entries_bytes(s1).len() implies #[trigger] entries_bytes(
            s1,
        )[j] == entries_bytes(s2)[j] by {
            assert(b1[24 + j] == entries_bytes(s1)[j]);
            assert(b2[24 + j] == entries_bytes(s2)[j]);
        }
    }
    lemma_entries_bytes_injective(s1, s2);
}

/// The bytes of one string: its length, then its characters.
pub open spec fn string_bytes(s: Seq<char>) -> Seq<u8> {
    u64_bytes(s.len() as int) + chars_bytes(s)
}

/// The bytes of a list of strings from index `i` on.
pub open spec fn strings_bytes_from(ss: Seq<Seq<char>>, i: int) -> Seq<u8>
    decreases ss.len() - i,
{
    if i < 0 || i >= ss.len() {
        Seq::empty()
    } else {
        string_bytes(ss[i]) + strings_bytes_from(ss, i + 1)
    }
}

/// The bytes of a whole list of strings: its length, then each string.
pub open spec fn strings_bytes(ss: Seq<Seq<char>>) -> Seq<u8> {
    u64_bytes(ss.len() as int) + strings_bytes_from(ss, 0)
}

/// What one persisted score entry means in bytes: the candidate, the exact
/// probability ratio, the count, and the diversity suffixes in their stored
/// order.
pub open spec fn score_entry_bytes(e: (Seq<char>, u32, u32, u32, Seq<Seq<char>>)) -> Seq<u8> {
    string_bytes(e.0) + u64_bytes(e.1 as int) + u64_bytes(e.2 as int) + u64_bytes(e.3 as int)
        + strings_bytes(e.4)
}

/// The bytes of the score entries from index `i` on.
pub open spec fn table_bytes_from(
    es: Seq<(Seq<char>, u32, u32, u32, Seq<Seq<char>>)>,
    i: int,
) -> Seq<u8>
    decreases es.len() - i,
{
    if i < 0 || i >= es.len() {
        Seq::empty()
    } else {
        score_entry_bytes(es[i]) + table_bytes_from(es, i + 1)
    }
}

/// What a persisted score entry sequence abstracts to: candidate, ratio,
/// count, and diversity suffixes in stored order.
pub open spec fn table_entry_views(s: Seq<(String, Score)>) -> Seq<
    (Seq<char>, u32, u32, u32, Seq<Seq<char>>),
> {
    s.map_values(
        |p: (String, Score)|
            (
                p.0@,
                p.1.noun_probability.num(),
                p.1.noun_probability.den(),
                p.1.count,
                p.1.unique_suffixes.item_views(),
            ),
    )
}

/// The bytes of a whole serving snapshot: the score table, then the
/// accepted nouns.
pub open spec fn serving_bytes(
    es: Seq<(Seq<char>, u32, u32, u32, Seq<Seq<char>>)>,
    nouns: Seq<Seq<char>>,
) -> Seq<u8> {
    u64_bytes(es.len() as int) + table_bytes_from(es, 0) + strings_bytes(nouns)
}

/// Appends one length-prefixed string.
fn push_string(out: &mut Vec<u8>, s: &str)
    ensures
        final(out)@ == old(out)@ + string_bytes(s@),
{
    let cs = str_chars(s);
    let m = cs.len();
    let ghost csv = cs@;
    push_u64(out, m as u64);
    let ghost mid = out@;
    let mut j: usize = 0;
    while j < m
        invariant
            j <= m,
            m == csv.len(),
            cs@ == csv,
            out@ == mid + chars_bytes(csv.subrange(0, j as int)),
        decreases m - j,
    {
        let cv = cs[j] as u32;
        push_u64(out, cv as u64);
        proof {
            assert(csv.subrange(0, j + 1) =~= csv.subrange(0, j as int).push(csv[j as int]));
            lemma_chars_bytes_push(csv.subrange(0, j as int), csv[j as int]);
            assert(out@ =~= mid + chars_bytes(csv.subrange(0, j + 1)));
        }
        j = j + 1;
    }
    proof {
        assert(csv.subrange(0, m as int) =~= csv);
        assert(final(out)@ =~= old(out)@ + string_bytes(s@));
    }
}

/// Appending one string to a list extends its bytes at the end.
proof fn lemma_strings_bytes_push(ss: Seq<Seq<char>>, x: Seq<char>)
    ensures
        strings_bytes_from(ss.push(x), 0) == strings_bytes_from(ss, 0) + string_bytes(x),
    decreases ss.len(),
{
    lemma_strings_bytes_push_from(ss, x, 0);
}

proof fn lemma_strings_bytes_push_from(ss: Seq<Seq<char>>, x: Seq<char>, i: int)
    requires
        0 <= i <= ss.len(),
    ensures
        strings_bytes_from(ss.push(x), i) == strings_bytes_from(ss, i) + string_bytes(x),
    decreases ss.len() - i,
{
    if i == ss.len() {
        assert(strings_bytes_from(ss.push(x), i) == string_bytes(ss.push(x)[i])
            + strings_bytes_from(ss.push(x), i + 1));
        assert(strings_bytes_from(ss.push(x), i) =~= strings_bytes_from(ss, i) + string_bytes(x));
    } else {
        lemma_strings_bytes_push_from(ss, x, i + 1);
        assert(ss.push(x)[i] == ss[i]);
        assert(string_bytes(ss[i]) + (strings_bytes_from(ss, i + 1) + string_bytes(x))
            =~= (string_bytes(ss[i]) + strings_bytes_from(ss, i + 1)) + string_bytes(x));
    }
}

/// Appending one entry to a table extends its bytes at the end.
proof fn lemma_table_bytes_push(
    es: Seq<(Seq<char>, u32, u32, u32, Seq<Seq<char>>)>,
    x: (Seq<char>, u32, u32, u32, Seq<Seq<char>>),
    i: int,
)
    requires
        0 <= i <= es.len(),
    ensures
        table_bytes_from(es.push(x), i) == table_bytes_from(es, i) + score_entry_bytes(x),
    decreases es.len() - i,
{
    if i == es.len() {
        assert(table_bytes_from(es.push(x), i) == score_entry_bytes(es.push(x)[i])
            + table_bytes_from(es.push(x), i + 1));
        assert(table_bytes_from(es.push(x), i) =~= table_bytes_from(es, i) + score_entry_bytes(x));
    } else {
        lemma_table_bytes_push(es, x, i + 1);
        assert(es.push(x)[i] == es[i]);
        assert(score_entry_bytes(es[i]) + (table_bytes_from(es, i + 1) + score_entry_bytes(x))
            =~= (score_entry_bytes(es[i]) + table_bytes_from(es, i + 1)) + score_entry_bytes(x));
    }
}

/// Appends a whole length-prefixed string list.
fn push_strings(out: &mut Vec<u8>, items: &Vec<String>)
    ensures
        final(out)@ == old(out)@ + strings_bytes(crate::strset::str_views(items@)),
{
    let ghost ivs = crate::strset::str_views(items@);
    let n = items.len();
    push_u64(out, n as u64);
    let ghost mid = out@;
    let mut i: usize = 0;
    while i < n
        invariant
            i <= n,
            n == ivs.len(),
            ivs == crate::strset::str_views(items@),
            out@ == mid + strings_bytes_from(ivs.subrange(0, i as int), 0),
        decreases n - i,
    {
        proof {
            assert(ivs[i as int] == items@[i as int]@);
        }
        push_string(out, items[i].as_str());
        proof {
            assert(ivs.subrange(0, i + 1) =~= ivs.subrange(0, i as int).push(ivs[i as int]));
            lemma_strings_bytes_push(ivs.subrange(0, i as int), ivs[i as int]);
            assert(out@ =~= mid + strings_bytes_from(ivs.subrange(0, i + 1), 0));
        }
        i = i + 1;
    }
    proof {
        assert(ivs.subrange(0, n as int) =~= ivs);
    }
}

/// Writes a serving snapshot to bytes, as `serving_bytes` says: the score
/// entries and accepted nouns exactly as handed in, in order.
#[verifier::rlimit(60)]
pub fn encode_serving(entries: &Vec<(String, Score)>, nouns: &Vec<String>) -> (r: Vec<u8>)
    requires
        forall|i: int| 0 <= i < entries@.len() ==> (#[trigger] entries@[i].1).inv(),
    ensures
        r@ == serving_bytes(table_entry_views(entries@), crate::strset::str_views(nouns@)),
{
    let ghost evs = table_entry_views(entries@);
    let mut out: Vec<u8> = Vec::new();
    push_u64(&mut out, entries.len() as u64);
    let ghost header = out@;
    let n = entries.len();
    let mut i: usize = 0;
    while i < n
        invariant
            i <= n,
            n == evs.len(),
            evs == table_entry_views(entries@),
            forall|k: int| 0 <= k < entries@.len() ==> (#[trigger] entries@[k].1).inv(),
            out@ == header + table_bytes_from(evs.subrange(0, i as int), 0),
        decreases n - i,
    {
        let (cand, score) = &entries[i];
        let ghost pre = out@;
        proof {
            assert(evs[i as int] == (
                cand@,
                score.noun_probability.num(),
                score.noun_probability.den(),
                score.count,
                score.unique_suffixes.item_views(),
            ));
        }
        push_string(&mut out, cand.as_str());
        push_u64(&mut out, score.noun_probability.numerator() as u64);
        push_u64(&mut out, score.noun_probability.denominator() as u64);
        push_u64(&mut out, score.count as u64);
        proof {
            assert(score.unique_suffixes.item_views() == score.unique_suffixes.item_views());
        }
        push_strings(&mut out, score.unique_suffixes.items());
        proof {
            assert(out@ =~= pre + score_entry_bytes(evs[i as int]));
            assert(evs.subrange(0, i + 1) =~= evs.subrange(0, i as int).push(evs[i as int]));
            lemma_table_bytes_push(evs.subrange(0, i as int), evs[i as int], 0);
            assert(out@ =~= header + table_bytes_from(evs.subrange(0, i + 1), 0));
        }
        i = i + 1;
    }
    proof {
        assert(evs.subrange(0, n as int) =~= evs);
    }
    push_strings(&mut out, nouns);
    proof {
        assert(out@ =~= serving_bytes(evs, crate::strset::str_views(nouns@)));
    }
    out
}


/// Lists of strings whose lengths fit their length fields.
pub open spec fn wf_strings(ss: Seq<Seq<char>>) -> bool {
    ss.len() < 0x10000000000000000 && (forall|i: int|
        0 <= i < ss.len() ==> (#[trigger] ss[i]).len() < 0x10000000000000000)
}

/// A persisted score entry the encoder can have written: lengths in range,
/// a duplicate-free suffix list, and a ratio that is valid or undefined.
pub open spec fn wf_score_entry(e: (Seq<char>, u32, u32, u32, Seq<Seq<char>>)) -> bool {
    e.0.len() < 0x10000000000000000 && wf_strings(e.4) && e.4.no_duplicates() && ((e.1 <= e.2 && 1
        <= e.2 && e.2 <= crate::score::PROB_DEN_LIMIT) || (e.1 == 0 && e.2 == 0))
}

/// Whether `b` is the serving snapshot of well-formed entries and nouns.
pub open spec fn is_serving_of(
    b: Seq<u8>,
    es: Seq<(Seq<char>, u32, u32, u32, Seq<Seq<char>>)>,
    nouns: Seq<Seq<char>>,
) -> bool {
    es.len() < 0x10000000000000000 && (forall|i: int|
        0 <= i < es.len() ==> wf_score_entry(#[trigger] es[i])) && wf_strings(nouns) && b
        == serving_bytes(es, nouns)
}

/// Whether a length-prefixed string `s` sits at `pos` of `b`.
pub open spec fn holds_string_at(b: Seq<u8>, pos: int, s: Seq<char>) -> bool {
    s.len() < 0x10000000000000000 && 0 <= pos && pos + 8 + 8 * s.len() <= b.len() && b.subrange(
        pos,
        pos + 8 + 8 * s.len(),
    ) == string_bytes(s)
}

/// Whether a length-prefixed string list `ss` sits at `pos` of `b`.
pub open spec fn holds_strings_at(b: Seq<u8>, pos: int, ss: Seq<Seq<char>>) -> bool {
    wf_strings(ss) && 0 <= pos && pos + strings_bytes(ss).len() <= b.len() && b.subrange(
        pos,
        pos + strings_bytes(ss).len(),
    ) == strings_bytes(ss)
}

/// One string's bytes are this long.
proof fn lemma_string_bytes_len(s: Seq<char>)
    ensures
        string_bytes(s).len() == 8 + 8 * s.len(),
{
    lemma_le_bytes_len(s.len() as int, 8);
    lemma_chars_bytes_len(s);
}

/// A string region determines the string: two strings claimed at the same
/// position of the same bytes are equal.
proof fn lemma_string_at_deterministic(b: Seq<u8>, pos: int, s1: Seq<char>, s2: Seq<char>)
    requires
        holds_string_at(b, pos, s1),
        holds_string_at(b, pos, s2),
    ensures
        s1 == s2,
{
    lemma_string_bytes_len(s1);
    lemma_string_bytes_len(s2);
    lemma_le_bytes_len(s1.len() as int, 8);
    lemma_le_bytes_len(s2.len() as int, 8);
    lemma_chars_bytes_len(s1);
    lemma_chars_bytes_len(s2);
    lemma_concat_parts(b, pos, u64_bytes(s1.len() as int), chars_bytes(s1));
    lemma_concat_parts(b, pos, u64_bytes(s2.len() as int), chars_bytes(s2));
    lemma_u64_read_back(b, pos, s1.len() as int);
    lemma_u64_read_back(b, pos, s2.len() as int);
    assert(s1.len() == s2.len());
    lemma_chars_bytes_injective(s1, s2);
}

/// A string-list region determines the list, item by item from index `i`.
proof fn lemma_strings_from_deterministic(
    b: Seq<u8>,
    q: int,
    ss1: Seq<Seq<char>>,
    ss2: Seq<Seq<char>>,
    i: int,
)
    requires
        wf_strings(ss1),
        wf_strings(ss2),
        ss1.len() == ss2.len(),
        0 <= i <= ss1.len(),
        0 <= q,
        q + strings_bytes_from(ss1, i).len() <= b.len(),
        q + strings_bytes_from(ss2, i).len() <= b.len(),
        b.subrange(q, q + strings_bytes_from(ss1, i).len()) == strings_bytes_from(ss1, i),
        b.subrange(q, q + strings_bytes_from(ss2, i).len()) == strings_bytes_from(ss2, i),
    ensures
        ss1.subrange(i, ss1.len() as int) == ss2.subrange(i, ss2.len() as int),
    decreases ss1.len() - i,
{
    if i == ss1.len() {
        assert(ss1.subrange(i, ss1.len() as int) =~= ss2.subrange(i, ss2.len() as int));
    } else {
        lemma_string_bytes_len(ss1[i]);
        lemma_string_bytes_len(ss2[i]);
        lemma_concat_parts(b, q, string_bytes(ss1[i]), strings_bytes_from(ss1, i + 1));
        lemma_concat_parts(b, q, string_bytes(ss2[i]), strings_bytes_from(ss2, i + 1));
        assert(holds_string_at(b, q, ss1[i]));
        assert(holds_string_at(b, q, ss2[i]));
        lemma_string_at_deterministic(b, q, ss1[i], ss2[i]);
        lemma_strings_from_deterministic(b, q + 8 + 8 * ss1[i].len(), ss1, ss2, i + 1);
        assert forall|j: int| i <= j < ss1.len() implies #[trigger] ss1[j] == ss2[j] by {
            if j > i {
                assert(ss1.subrange(i + 1, ss1.len() as int)[j - i - 1] == ss1[j]);
                assert(ss2.subrange(i + 1, ss2.len() as int)[j - i - 1] == ss2[j]);
            }
        }
        assert(ss1.subrange(i, ss1.len() as int) =~= ss2.subrange(i, ss2.len() as int));
    }
}

/// A string-list region determines the whole list and where it ends.
proof fn lemma_strings_at_deterministic(b: Seq<u8>, pos: int, ss1: Seq<Seq<char>>, ss2: Seq<
    Seq<char>,
>)
    requires
        holds_strings_at(b, pos, ss1),
        holds_strings_at(b, pos, ss2),
    ensures
        ss1 == ss2,
{
    lemma_le_bytes_len(ss1.len() as int, 8);
    lemma_le_bytes_len(ss2.len() as int, 8);
    lemma_concat_parts(b, pos, u64_bytes(ss1.len() as int), strings_bytes_from(ss1, 0));
    lemma_concat_parts(b, pos, u64_bytes(ss2.len() as int), strings_bytes_from(ss2, 0));
    lemma_u64_read_back(b, pos, ss1.len() as int);
    lemma_u64_read_back(b, pos, ss2.len() as int);
    assert(ss1.len() == ss2.len());
    lemma_strings_from_deterministic(b, pos + 8, ss1, ss2, 0);
    assert(ss1.subrange(0, ss1.len() as int) =~= ss1);
    assert(ss2.subrange(0, ss2.len() as int) =~= ss2);
}

fn read_string(b: &Vec<u8>, pos: usize) -> (r: Option<(String, usize)>)
    requires
        pos <= b@.len(),
    ensures
        match r {
            Some(sp) => pos + 8 <= sp.1 <= b@.len() && b@.subrange(pos as int, sp.1 as int)
                == string_bytes(sp.0@),
            None => true,
        },
        forall|s: Seq<char>|
            #[trigger] holds_string_at(b@, pos as int, s) ==> (r is Some && r->Some_0.0@ == s
                && r->Some_0.1 as int == pos + 8 + 8 * s.len()),
{
    let ghost held = exists|s: Seq<char>| holds_string_at(b@, pos as int, s);
    let ghost ws: Seq<char> = choose|s: Seq<char>| holds_string_at(b@, pos as int, s);
    proof {
        if held {
            assert(holds_string_at(b@, pos as int, ws));
            lemma_string_bytes_len(ws);
            lemma_le_bytes_len(ws.len() as int, 8);
            lemma_chars_bytes_len(ws);
            lemma_concat_parts(b@, pos as int, u64_bytes(ws.len() as int), chars_bytes(ws));
            lemma_u64_read_back(b@, pos as int, ws.len() as int);
        }
    }
    let total = b.len();
    if total - pos < 8 {
        proof {
            assert(!held);
        }
        return None;
    }
    let m64 = read_u64(b, pos);
    proof {
        lemma_le_value_bytes(b@, pos as int, 8);
    }
    let mut p: usize = pos + 8;
    let ghost cstart = p as int;
    let mut s = empty_string();
    let mut cidx: u64 = 0;
    while cidx < m64
        invariant
            pos + 8 == cstart,
            cstart <= p <= total,
            total == b@.len(),
            cidx <= m64,
            s@.len() == cidx,
            p == cstart + 8 * cidx,
            b@.subrange(cstart, p as int) == chars_bytes(s@),
            held == (exists|s0: Seq<char>| holds_string_at(b@, pos as int, s0)),
            held ==> (m64 as int == ws.len() && cstart + 8 * ws.len() <= total && b@.subrange(
                cstart,
                cstart + 8 * ws.len(),
            ) == chars_bytes(ws)),
        decreases m64 - cidx,
    {
        proof {
            if held {
                lemma_char_read(b@, cstart, ws, cidx as int);
            }
        }
        if total - p < 8 {
            proof {
                assert(!held);
            }
            return None;
        }
        let cu = read_u64(b, p);
        if cu > 0x10FFFF {
            proof {
                assert(!held) by {
                    if held {
                        assert(cu as int == (ws[cidx as int] as u32) as int);
                        vstd::utf8::char_is_scalar(ws[cidx as int]);
                    }
                }
            }
            return None;
        }
        let c = match char_from_u32(cu as u32) {
            Some(c) => c,
            None => {
                proof {
                    assert(!held) by {
                        if held {
                            assert(cu as int == (ws[cidx as int] as u32) as int);
                            vstd::utf8::char_is_scalar(ws[cidx as int]);
                            assert(vstd::utf8::is_scalar(ws[cidx as int] as u32));
                        }
                    }
                }
                return None;
            },
        };
        proof {
            lemma_le_value_bytes(b@, p as int, 8);
            assert((c as u32) as int == cu as int);
            lemma_chars_bytes_push(s@, c);
            assert(b@.subrange(cstart, p + 8) =~= b@.subrange(cstart, p as int) + b@.subrange(
                p as int,
                p + 8,
            ));
        }
        push_char(&mut s, c);
        p = p + 8;
        cidx = cidx + 1;
    }
    proof {
        assert(b@.subrange(pos as int, p as int) =~= b@.subrange(pos as int, pos + 8)
            + b@.subrange(cstart, p as int));
        assert(b@.subrange(pos as int, p as int) =~= string_bytes(s@));
        assert forall|s0: Seq<char>| #[trigger] holds_string_at(b@, pos as int, s0) implies (s@
            == s0 && p as int == pos + 8 + 8 * s0.len()) by {
            lemma_string_bytes_len(s@);
            assert(s@.len() < 0x10000000000000000);
            assert(holds_string_at(b@, pos as int, s@));
            lemma_string_at_deterministic(b@, pos as int, s@, s0);
        }
    }
    Some((s, p))
}

fn read_strings(b: &Vec<u8>, pos: usize) -> (r: Option<(Vec<String>, usize)>)
    requires
        pos <= b@.len(),
    ensures
        match r {
            Some(sp) => pos + 8 <= sp.1 <= b@.len() && b@.subrange(pos as int, sp.1 as int)
                == strings_bytes(crate::strset::str_views(sp.0@)),
            None => true,
        },
        forall|ss: Seq<Seq<char>>|
            #[trigger] holds_strings_at(b@, pos as int, ss) ==> (r is Some
                && crate::strset::str_views(r->Some_0.0@) == ss && r->Some_0.1 as int == pos
                + strings_bytes(ss).len()),
{
    let ghost held = exists|ss: Seq<Seq<char>>| holds_strings_at(b@, pos as int, ss);
    let ghost wss: Seq<Seq<char>> = choose|ss: Seq<Seq<char>>|
        holds_strings_at(b@, pos as int, ss);
    proof {
        if held {
            assert(holds_strings_at(b@, pos as int, wss));
            lemma_le_bytes_len(wss.len() as int, 8);
            lemma_concat_parts(b@, pos as int, u64_bytes(wss.len() as int), strings_bytes_from(
                wss,
                0,
            ));
            lemma_u64_read_back(b@, pos as int, wss.len() as int);
        }
    }
    let total = b.len();
    if total - pos < 8 {
        proof {
            assert(!held);
        }
        return None;
    }
    let n64 = read_u64(b, pos);
    proof {
        lemma_le_value_bytes(b@, pos as int, 8);
    }
    let mut p: usize = pos + 8;
    let ghost lstart = p as int;
    let mut items: Vec<String> = Vec::new();
    let mut k: u64 = 0;
    while k < n64
        invariant
            pos + 8 == lstart,
            lstart <= p <= total,
            total == b@.len(),
            k <= n64,
            items@.len() == k,
            b@.subrange(lstart, p as int) == strings_bytes_from(
                crate::strset::str_views(items@),
                0,
            ),
            forall|j: int|
                0 <= j < items@.len() ==> (#[trigger] items@[j])@.len() < 0x10000000000000000,
            held == (exists|ss: Seq<Seq<char>>| holds_strings_at(b@, pos as int, ss)),
            held ==> (wf_strings(wss) && n64 as int == wss.len() && k <= wss.len() && lstart
                + strings_bytes_from(wss, 0).len() <= total && p as int + strings_bytes_from(
                wss,
                k as int,
            ).len() == lstart + strings_bytes_from(wss, 0).len() && b@.subrange(
                p as int,
                lstart + strings_bytes_from(wss, 0).len(),
            ) == strings_bytes_from(wss, k as int)),
        decreases n64 - k,
    {
        let ghost pre = crate::strset::str_views(items@);
        proof {
            if held {
                assert(k < wss.len());
                lemma_string_bytes_len(wss[k as int]);
                lemma_concat_parts(b@, p as int, string_bytes(wss[k as int]), strings_bytes_from(
                    wss,
                    k + 1,
                ));
                assert(holds_string_at(b@, p as int, wss[k as int]));
            }
        }
        let (s, p1) = match read_string(b, p) {
            Some(x) => x,
            None => {
                proof {
                    assert(!held);
                }
                return None;
            },
        };
        proof {
            assert(b@.subrange(lstart, p1 as int) =~= b@.subrange(lstart, p as int) + b@.subrange(
                p as int,
                p1 as int,
            ));
            lemma_string_bytes_len(s@);
            assert(8 * s@.len() <= total);
        }
        items.push(s);
        proof {
            assert(crate::strset::str_views(items@) =~= pre.push(items@.last()@));
            lemma_strings_bytes_push(pre, items@.last()@);
        }
        p = p1;
        k = k + 1;
    }
    proof {
        assert(b@.subrange(pos as int, p as int) =~= b@.subrange(pos as int, pos + 8)
            + b@.subrange(lstart, p as int));
        assert(crate::strset::str_views(items@).len() == n64 as int);
        assert(b@.subrange(pos as int, p as int) =~= strings_bytes(
            crate::strset::str_views(items@),
        ));
        let views = crate::strset::str_views(items@);
        assert forall|j: int| 0 <= j < views.len() implies (#[trigger] views[j]).len()
            < 0x10000000000000000 by {
            assert(items@[j]@.len() < 0x10000000000000000);
        }
        assert(wf_strings(views));
        assert forall|ss: Seq<Seq<char>>| #[trigger] holds_strings_at(b@, pos as int, ss) implies (
        views == ss && p as int == pos + strings_bytes(ss).len()) by {
            assert(holds_strings_at(b@, pos as int, views));
            lemma_strings_at_deterministic(b@, pos as int, views, ss);
        }
    }
    Some((items, p))
}

fn strset_from(items: Vec<String>) -> (r: Option<StrSet>)
    ensures
        match r {
            Some(set) => set.inv() && set.item_views() == crate::strset::str_views(items@),
            None => true,
        },
        crate::strset::str_views(items@).no_duplicates() ==> r is Some,
{
    let ghost ivs = crate::strset::str_views(items@);
    let mut set = StrSet::new();
    proof {
        assert(set@ =~= ivs.subrange(0, 0).to_set()) by {
            assert(ivs.subrange(0, 0) =~= Seq::<Seq<char>>::empty());
        }
    }
    let n = items.len();
    let mut i: usize = 0;
    while i < n
        invariant
            i <= n,
            n == items@.len(),
            ivs == crate::strset::str_views(items@),
            set.inv(),
            set.item_views() == ivs.subrange(0, i as int),
            set@ == ivs.subrange(0, i as int).to_set(),
        decreases n - i,
    {
        proof {
            assert(ivs[i as int] == items@[i as int]@);
        }
        if set.contains(&items[i]) {
            proof {
                if ivs.no_duplicates() {
                    let ivsl = ivs.subrange(0, i as int);
                    assert(ivsl.to_set().contains(ivs[i as int]));
                    let j = choose|j: int|
                        0 <= j < ivsl.len() && #[trigger] ivsl[j] == ivs[i as int];
                    assert(ivs[j] == ivs[i as int] && j < i);
                    assert(false);
                }
            }
            return None;
        }
        set.insert(items[i].clone());
        proof {
            assert(ivs.subrange(0, i + 1) =~= ivs.subrange(0, i as int).push(ivs[i as int]));
            crate::strset::lemma_to_set_push(ivs.subrange(0, i as int), ivs[i as int]);
        }
        i = i + 1;
    }
    proof {
        assert(ivs.subrange(0, n as int) =~= ivs);
    }
    Some(set)
}


/// The header of serving-snapshot bytes reads back as the entry count, and
/// the rest is the entries' bytes followed by the nouns'.
proof fn lemma_serving_header(
    b: Seq<u8>,
    es: Seq<(Seq<char>, u32, u32, u32, Seq<Seq<char>>)>,
    ns: Seq<Seq<char>>,
)
    requires
        is_serving_of(b, es, ns),
    ensures
        b.len() == 8 + table_bytes_from(es, 0).len() + strings_bytes(ns).len(),
        le_value(b, 0, 8) == es.len() as int,
        b.subrange(8, b.len() as int) == table_bytes_from(es, 0) + strings_bytes(ns),
{
    lemma_le_bytes_len(es.len() as int, 8);
    let rest = table_bytes_from(es, 0) + strings_bytes(ns);
    assert(b =~= u64_bytes(es.len() as int) + rest);
    assert(b.subrange(0, b.len() as int) =~= b);
    lemma_concat_parts(b, 0, u64_bytes(es.len() as int), rest);
    lemma_u64_read_back(b, 0, es.len() as int);
}

/// Inside serving-snapshot bytes, entry `k` sits where its predecessors end:
/// its candidate, ratio, count and suffix list read back exactly, and the
/// remaining entries and nouns follow.
#[verifier::spinoff_prover]
#[verifier::rlimit(100)]
proof fn lemma_serving_entry_region(
    b: Seq<u8>,
    es: Seq<(Seq<char>, u32, u32, u32, Seq<Seq<char>>)>,
    ns: Seq<Seq<char>>,
    k: int,
    pos: int,
)
    requires
        is_serving_of(b, es, ns),
        0 <= k < es.len(),
        0 <= pos,
        pos + table_bytes_from(es, k).len() + strings_bytes(ns).len() == b.len(),
        b.subrange(pos, b.len() as int) == table_bytes_from(es, k) + strings_bytes(ns),
    ensures
        holds_string_at(b, pos, es[k].0),
        pos + 8 + 8 * es[k].0.len() + 24 <= b.len(),
        le_value(b, pos + 8 + 8 * es[k].0.len(), 8) == es[k].1 as int,
        le_value(b, pos + 8 + 8 * es[k].0.len() + 8, 8) == es[k].2 as int,
        le_value(b, pos + 8 + 8 * es[k].0.len() + 16, 8) == es[k].3 as int,
        holds_strings_at(b, pos + 8 + 8 * es[k].0.len() + 24, es[k].4),
        pos + 8 + 8 * es[k].0.len() + 24 + strings_bytes(es[k].4).len() + table_bytes_from(
            es,
            k + 1,
        ).len() + strings_bytes(ns).len() == b.len(),
        b.subrange(
            pos + 8 + 8 * es[k].0.len() + 24 + strings_bytes(es[k].4).len(),
            b.len() as int,
        ) == table_bytes_from(es, k + 1) + strings_bytes(ns),
{
    let e = es[k];
    assert(wf_score_entry(e));
    assert(table_bytes_from(es, k) == score_entry_bytes(e) + table_bytes_from(es, k + 1));
    lemma_string_bytes_len(e.0);
    lemma_le_bytes_len(e.1 as int, 8);
    lemma_le_bytes_len(e.2 as int, 8);
    lemma_le_bytes_len(e.3 as int, 8);
    let tail0 = u64_bytes(e.1 as int) + (u64_bytes(e.2 as int) + (u64_bytes(e.3 as int)
        + (strings_bytes(e.4) + (table_bytes_from(es, k + 1) + strings_bytes(ns)))));
    assert(b.subrange(pos, b.len() as int) =~= string_bytes(e.0) + tail0);
    lemma_concat_parts(b, pos, string_bytes(e.0), tail0);
    assert(holds_string_at(b, pos, e.0));
    let q = pos + 8 + 8 * e.0.len();
    let tail1 = u64_bytes(e.2 as int) + (u64_bytes(e.3 as int) + (strings_bytes(e.4)
        + (table_bytes_from(es, k + 1) + strings_bytes(ns))));
    lemma_concat_parts(b, q, u64_bytes(e.1 as int), tail1);
    lemma_u64_read_back(b, q, e.1 as int);
    let tail2 = u64_bytes(e.3 as int) + (strings_bytes(e.4) + (table_bytes_from(es, k + 1)
        + strings_bytes(ns)));
    lemma_concat_parts(b, q + 8, u64_bytes(e.2 as int), tail2);
    lemma_u64_read_back(b, q + 8, e.2 as int);
    let tail3 = strings_bytes(e.4) + (table_bytes_from(es, k + 1) + strings_bytes(ns));
    lemma_concat_parts(b, q + 16, u64_bytes(e.3 as int), tail3);
    lemma_u64_read_back(b, q + 16, e.3 as int);
    lemma_concat_parts(
        b,
        q + 24,
        strings_bytes(e.4),
        table_bytes_from(es, k + 1) + strings_bytes(ns),
    );
    assert(holds_strings_at(b, q + 24, e.4));
}

/// Reads a serving snapshot back from bytes: a snapshot written by
/// `encode_serving` always decodes, and the decoded entries and nouns
/// re-encode to exactly the given bytes, so a persisted score table and
/// accepted-noun set are reproduced without loss; corrupt bytes are
/// rejected.
#[verifier::rlimit(100)]
pub fn decode_serving(bytes: &Vec<u8>) -> (r: Option<(Vec<(String, Score)>, Vec<String>)>)
    ensures
        match r {
            Some(parts) => bytes@ == serving_bytes(
                table_entry_views(parts.0@),
                crate::strset::str_views(parts.1@),
            ) && (forall|i: int| 0 <= i < parts.0@.len() ==> (#[trigger] parts.0@[i].1).inv()),
            None => true,
        },
        forall|es: Seq<(Seq<char>, u32, u32, u32, Seq<Seq<char>>)>, ns: Seq<Seq<char>>|
            #[trigger] is_serving_of(bytes@, es, ns) ==> r is Some,
{
    let ghost held = exists|es: Seq<(Seq<char>, u32, u32, u32, Seq<Seq<char>>)>, ns: Seq<
        Seq<char>,
    >| is_serving_of(bytes@, es, ns);
    let ghost wit: (Seq<(Seq<char>, u32, u32, u32, Seq<Seq<char>>)>, Seq<Seq<char>>) = choose|
        es: Seq<(Seq<char>, u32, u32, u32, Seq<Seq<char>>)>,
        ns: Seq<Seq<char>>,
    | is_serving_of(bytes@, es, ns);
    let ghost wes = wit.0;
    let ghost wns = wit.1;
    proof {
        if held {
            assert(is_serving_of(bytes@, wes, wns));
            lemma_serving_header(bytes@, wes, wns);
        }
    }
    let total = bytes.len();
    if total < 8 {
        proof {
            assert(!held);
        }
        return None;
    }
    let n64 = read_u64(bytes, 0);
    proof {
        lemma_le_value_bytes(bytes@, 0, 8);
    }
    let mut pos: usize = 8;
    let mut entries: Vec<(String, Score)> = Vec::new();
    let mut k: u64 = 0;
    while k < n64
        invariant
            8 <= pos <= total,
            total == bytes@.len(),
            k <= n64,
            entries@.len() == k,
            bytes@.subrange(0, 8) == u64_bytes(n64 as int),
            bytes@.subrange(8, pos as int) == table_bytes_from(table_entry_views(entries@), 0),
            forall|i: int| 0 <= i < entries@.len() ==> (#[trigger] entries@[i].1).inv(),
            held == (exists|es: Seq<(Seq<char>, u32, u32, u32, Seq<Seq<char>>)>, ns: Seq<
                Seq<char>,
            >| is_serving_of(bytes@, es, ns)),
            held ==> is_serving_of(bytes@, wes, wns),
            held ==> n64 as int == wes.len(),
            held ==> pos as int + table_bytes_from(wes, k as int).len() + strings_bytes(
                wns,
            ).len() == total,
            held ==> bytes@.subrange(pos as int, total as int) == table_bytes_from(wes, k as int)
                + strings_bytes(wns),
        decreases n64 - k,
    {
        let ghost pre_evs = table_entry_views(entries@);
        let pos0 = pos;
        proof {
            if held {
                lemma_serving_entry_region(bytes@, wes, wns, k as int, pos as int);
            }
        }
        let (cand, p1) = match read_string(bytes, pos) {
            Some(x) => x,
            None => {
                proof {
                    assert(!held);
                }
                return None;
            },
        };
        pos = p1;
        if total - pos < 24 {
            proof {
                assert(!held);
            }
            return None;
        }
        let num64 = read_u64(bytes, pos);
        let den64 = read_u64(bytes, pos + 8);
        let cnt64 = read_u64(bytes, pos + 16);
        if num64 > u32::MAX as u64 || den64 > u32::MAX as u64 || cnt64 > u32::MAX as u64 {
            proof {
                assert(!held);
            }
            return None;
        }
        proof {
            lemma_le_value_bytes(bytes@, pos as int, 8);
            lemma_le_value_bytes(bytes@, pos + 8, 8);
            lemma_le_value_bytes(bytes@, pos + 16, 8);
            assert(bytes@.subrange(pos as int, pos + 24) =~= bytes@.subrange(pos as int, pos + 8)
                + bytes@.subrange(pos + 8, pos + 16) + bytes@.subrange(pos + 16, pos + 24));
        }
        let ghost nums_start = pos as int;
        pos = pos + 24;
        let prob = if num64 == 0 && den64 == 0 {
            Prob::undefined()
        } else {
            match Prob::new(num64 as u32, den64 as u32) {
                Some(p) => p,
                None => {
                    proof {
                        assert(!held) by {
                            if held {
                                assert(wf_score_entry(wes[k as int]));
                            }
                        }
                    }
                    return None;
                },
            }
        };
        let (sfx_items, p2) = match read_strings(bytes, pos) {
            Some(x) => x,
            None => {
                proof {
                    assert(!held);
                }
                return None;
            },
        };
        let set = match strset_from(sfx_items) {
            Some(s) => s,
            None => {
                proof {
                    assert(!held) by {
                        if held {
                            assert(wf_score_entry(wes[k as int]));
                            assert(crate::strset::str_views(sfx_items@) == wes[k as int].4);
                        }
                    }
                }
                return None;
            },
        };
        let score = Score::new(prob, cnt64 as u32, set);
        proof {
            assert(bytes@.subrange(pos0 as int, p2 as int) =~= bytes@.subrange(
                pos0 as int,
                nums_start,
            ) + bytes@.subrange(nums_start, nums_start + 24) + bytes@.subrange(
                nums_start + 24,
                p2 as int,
            ));
            assert(bytes@.subrange(pos0 as int, p2 as int) =~= score_entry_bytes(
                (cand@, score.noun_probability.num(), score.noun_probability.den(), score.count,
                score.unique_suffixes.item_views()),
            ));
        }
        pos = p2;
        entries.push((cand, score));
        k = k + 1;
        proof {
            assert(table_entry_views(entries@) =~= pre_evs.push(
                (
                    entries@.last().0@,
                    entries@.last().1.noun_probability.num(),
                    entries@.last().1.noun_probability.den(),
                    entries@.last().1.count,
                    entries@.last().1.unique_suffixes.item_views(),
                ),
            ));
            lemma_table_bytes_push(
                pre_evs,
                table_entry_views(entries@).last(),
                0,
            );
            assert(bytes@.subrange(8, pos as int) =~= bytes@.subrange(8, pos0 as int)
                + bytes@.subrange(pos0 as int, pos as int));
        }
    }
    proof {
        if held {
            assert(table_bytes_from(wes, k as int).len() == 0) by {
                assert(k as int == wes.len());
            }
            assert(holds_strings_at(bytes@, pos as int, wns)) by {
                assert(bytes@.subrange(pos as int, total as int) =~= strings_bytes(wns));
            }
        }
    }
    let (nouns, p3) = match read_strings(bytes, pos) {
        Some(x) => x,
        None => {
            proof {
                assert(!held);
            }
            return None;
        },
    };
    if p3 != total {
        proof {
            assert(!held);
        }
        return None;
    }
    proof {
        assert(bytes@.subrange(0, total as int) =~= bytes@);
        assert(bytes@ =~= (bytes@.subrange(0, 8) + bytes@.subrange(8, pos as int))
            + bytes@.subrange(pos as int, total as int));
        assert(table_entry_views(entries@).len() == n64 as int);
    }
    Some((entries, nouns))
}

} // verus!
