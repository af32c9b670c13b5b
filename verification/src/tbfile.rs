use vstd::prelude::*;
use crate::tablebase;
use crate::tablebase::Store;

verus! {

// ── Byte layout of a saved store ────────────────────────────────────────────
//
// A u32 entry count (little-endian), then per entry: one byte of key length, the key's piece
// codes, a u32 table length (little-endian), and the table's bytes.

/// Little-endian bytes of a `u32`.
pub open spec fn u32_le(v: nat) -> Seq<u8> {
    seq![(v % 256) as u8, (v / 256 % 256) as u8, (v / 65536 % 256) as u8, (v / 16777216 % 256) as u8]
}

/// Value of four little-endian bytes.
pub open spec fn le_value(b: Seq<u8>) -> nat {
    (b[0] + 256 * b[1] + 65536 * b[2] + 16777216 * b[3]) as nat
}

/// Bytes of one entry.
pub open spec fn entry_bytes(k: Seq<u8>, v: Seq<u8>) -> Seq<u8> {
    seq![k.len() as u8] + k + u32_le(v.len()) + v
}

/// Bytes of the entries of the first `n` keys.
pub open spec fn entries_bytes(keys: Seq<Seq<u8>>, st: Map<Seq<u8>, Seq<u8>>, n: int) -> Seq<u8>
    decreases n,
{
    if n <= 0 {
        Seq::empty()
    } else {
        entries_bytes(keys, st, n - 1) + entry_bytes(keys[n - 1], st[keys[n - 1]])
    }
}

/// Bytes of a store whose sets are `keys`, in that order.
pub open spec fn store_bytes(keys: Seq<Seq<u8>>, st: Map<Seq<u8>, Seq<u8>>) -> Seq<u8> {
    u32_le(keys.len()) + entries_bytes(keys, st, keys.len() as int)
}

/// The `n` entries read from `b` at offset `o`, or None when the bytes run out.
pub open spec fn decode_entries(b: Seq<u8>, o: int, n: nat) -> Option<Seq<(Seq<u8>, Seq<u8>)>>
    decreases n,
{
    if n == 0 {
        Some(Seq::empty())
    } else if o < 0 || o + 1 > b.len() {
        None
    } else {
        let kl = b[o] as int;
        let ko = o + 1;
        if ko + kl > b.len() {
            None
        } else {
            let lo = ko + kl;
            if lo + 4 > b.len() {
                None
            } else {
                let vl = le_value(b.subrange(lo, lo + 4)) as int;
                let vo = lo + 4;
                if vo + vl > b.len() {
                    None
                } else {
                    match decode_entries(b, vo + vl, (n - 1) as nat) {
                        None => None,
                        Some(rest) => Some(seq![(b.subrange(ko, ko + kl), b.subrange(vo, vo + vl))] + rest),
                    }
                }
            }
        }
    }
}

/// The entries of a saved store: the count, then that many entries (bytes after them are
/// ignored).
pub open spec fn decode_store(b: Seq<u8>) -> Option<Seq<(Seq<u8>, Seq<u8>)>> {
    decode_entries(b, 4, le_value(b.subrange(0, 4)))
}

/// The map the entries give when added in order (a later entry for a set replaces an earlier).
pub open spec fn entries_map(es: Seq<(Seq<u8>, Seq<u8>)>) -> Map<Seq<u8>, Seq<u8>>
    decreases es.len(),
{
    if es.len() == 0 {
        Map::empty()
    } else {
        entries_map(es.drop_last()).insert(es.last().0, es.last().1)
    }
}

/// A listing of a store's sets, each once and each naming a table, makes the sets distinct,
/// valid and exactly the store's.
proof fn lemma_listing(ks: Seq<Seq<u8>>, st: Map<Seq<u8>, Seq<u8>>, r: Seq<Vec<u8>>)
    requires
        r.len() == ks.len(),
        forall|i: int| 0 <= i < r.len() ==> #[trigger] r[i]@ == ks[i],
        forall|i: int| 0 <= i < r.len() ==> tablebase::valid_key(#[trigger] r[i]@),
        forall|i: int| 0 <= i < r.len() ==> st.contains_key(#[trigger] r[i]@),
        forall|s: Seq<u8>| st.contains_key(s) ==> exists|i: int| 0 <= i < r.len() && #[trigger] r[i]@ == s,
        forall|i: int, j: int| 0 <= i < r.len() && 0 <= j < r.len() && i != j ==> #[trigger] r[i]@ != #[trigger] r[j]@,
    ensures
        ks.no_duplicates(),
        forall|i: int| 0 <= i < ks.len() ==> tablebase::valid_key(#[trigger] ks[i]),
        forall|s: Seq<u8>| #[trigger] st.contains_key(s) <==> ks.contains(s),
{
    assert forall|i: int, j: int| 0 <= i < ks.len() && 0 <= j < ks.len() && i != j implies ks[i] != ks[j] by {
        assert(r[i]@ != r[j]@);
    }
    assert forall|i: int| 0 <= i < ks.len() implies tablebase::valid_key(#[trigger] ks[i]) by {
        assert(tablebase::valid_key(r[i]@));
    }
    assert forall|s: Seq<u8>| #[trigger] st.contains_key(s) <==> ks.contains(s) by {
        if st.contains_key(s) {
            let i = choose|i: int| 0 <= i < r.len() && #[trigger] r[i]@ == s;
            assert(ks[i] == s);
        }
        if ks.contains(s) {
            let i = choose|i: int| 0 <= i < ks.len() && ks[i] == s;
            assert(st.contains_key(r[i]@));
        }
    }
}

/// Do the store's set count and every table length fit the format's `u32` fields? (The store
/// lists its sets once each, each naming a table, so then it can be saved.)
pub fn store_fits_bytes(store: &Store) -> (b: bool)
    ensures
        b == (store.keys().len() <= u32::MAX && forall|i: int|
            0 <= i < store.keys().len() ==> #[trigger] store@[store.keys()[i]].len() <= u32::MAX),
        b == saveable(store.keys(), store@),
{
    let keys = store.sets();
    proof {
        lemma_listing(store.keys(), store@, keys@);
    }
    if keys.len() > 4294967295usize {
        return false;
    }
    let mut i: usize = 0;
    while i < keys.len()
        invariant
            0 <= i <= keys@.len(),
            keys@.len() == store.keys().len(),
            forall|a: int| 0 <= a < keys@.len() ==> #[trigger] keys@[a]@ == store.keys()[a],
            forall|a: int| 0 <= a < keys@.len() ==> tablebase::valid_key(#[trigger] keys@[a]@),
            forall|a: int| 0 <= a < keys@.len() ==> store@.contains_key(#[trigger] keys@[a]@),
            forall|a: int| 0 <= a < i ==> #[trigger] store@[store.keys()[a]].len() <= u32::MAX,
        decreases keys@.len() - i,
    {
        assert(store@.contains_key(keys@[i as int]@));
        let t = store.get(keys[i].as_slice()).unwrap();
        if t.len() > 4294967295usize {
            return false;
        }
        i += 1;
    }
    true
}

fn push_u32_le(out: &mut Vec<u8>, v: u32)
    ensures
        final(out)@ == old(out)@ + u32_le(v as nat),
{
    out.push((v % 256) as u8);
    out.push((v / 256 % 256) as u8);
    out.push((v / 65536 % 256) as u8);
    out.push((v / 16777216 % 256) as u8);
    assert(final(out)@ =~= old(out)@ + u32_le(v as nat));
}

/// The bytes of a store, its sets in the order they were first added.
pub fn store_to_bytes(store: &Store) -> (r: Vec<u8>)
    requires
        store.keys().len() <= u32::MAX,
        forall|i: int| 0 <= i < store.keys().len() ==> #[trigger] store@[store.keys()[i]].len() <= u32::MAX,
    ensures
        r@ == store_bytes(store.keys(), store@),
        saveable(store.keys(), store@),
{
    let keys = store.sets();
    let ghost ks = store.keys();
    proof {
        lemma_listing(store.keys(), store@, keys@);
    }
    let mut out: Vec<u8> = Vec::new();
    push_u32_le(&mut out, keys.len() as u32);
    let ghost head = out@;
    let mut i: usize = 0;
    while i < keys.len()
        invariant
            0 <= i <= keys@.len(),
            keys@.len() == ks.len(),
            ks == store.keys(),
            forall|a: int| 0 <= a < keys@.len() ==> #[trigger] keys@[a]@ == ks[a],
            forall|a: int| 0 <= a < keys@.len() ==> tablebase::valid_key(#[trigger] keys@[a]@),
            forall|a: int| 0 <= a < keys@.len() ==> store@.contains_key(#[trigger] keys@[a]@),
            forall|a: int| 0 <= a < ks.len() ==> #[trigger] store@[ks[a]].len() <= u32::MAX,
            head == u32_le(ks.len()),
            out@ == head + entries_bytes(ks, store@, i as int),
        decreases keys@.len() - i,
    {
        let key = &keys[i];
        assert(tablebase::valid_key(keys@[i as int]@));
        let t = store.get(key.as_slice()).unwrap();
        assert(t@ == store@[ks[i as int]]);
        out.push(key.len() as u8);
        let mut a: usize = 0;
        let ghost before = out@;
        while a < key.len()
            invariant
                0 <= a <= key@.len(),
                out@ == before + key@.subrange(0, a as int),
            decreases key@.len() - a,
        {
            out.push(key[a]);
            assert(key@.subrange(0, a + 1) == key@.subrange(0, a as int).push(key@[a as int]));
            a += 1;
        }
        assert(key@.subrange(0, key@.len() as int) == key@);
        push_u32_le(&mut out, t.len() as u32);
        let mut c: usize = 0;
        let ghost before2 = out@;
        while c < t.len()
            invariant
                0 <= c <= t@.len(),
                out@ == before2 + t@.subrange(0, c as int),
            decreases t@.len() - c,
        {
            out.push(t[c]);
            assert(t@.subrange(0, c + 1) == t@.subrange(0, c as int).push(t@[c as int]));
            c += 1;
        }
        assert(t@.subrange(0, t@.len() as int) == t@);
        assert(out@ =~= head + entries_bytes(ks, store@, i + 1));
        i += 1;
    }
    out
}

fn read_u32_le(b: &[u8], o: usize) -> (v: u64)
    requires
        o + 4 <= b@.len(),
    ensures
        v == le_value(b@.subrange(o as int, o + 4)),
{
    b[o] as u64 + 256 * (b[o + 1] as u64) + 65536 * (b[o + 2] as u64) + 16777216 * (b[o + 3] as u64)
}

fn copy_range(b: &[u8], a: usize, e: usize) -> (r: Vec<u8>)
    requires
        a <= e <= b@.len(),
    ensures
        r@ == b@.subrange(a as int, e as int),
{
    let mut r: Vec<u8> = Vec::new();
    let mut i: usize = a;
    while i < e
        invariant
            a <= i <= e <= b@.len(),
            r@ == b@.subrange(a as int, i as int),
        decreases e - i,
    {
        r.push(b[i]);
        assert(b@.subrange(a as int, i + 1) == b@.subrange(a as int, i as int).push(b@[i as int]));
        i += 1;
    }
    r
}

proof fn lemma_entries_map_push(es: Seq<(Seq<u8>, Seq<u8>)>, e: (Seq<u8>, Seq<u8>))
    ensures
        entries_map(es.push(e)) == entries_map(es).insert(e.0, e.1),
{
    assert(es.push(e).drop_last() =~= es);
}

/// Every key of the entries names a table (at most 15 piece codes 1..16).
pub open spec fn keys_valid(es: Seq<(Seq<u8>, Seq<u8>)>) -> bool {
    forall|i: int| 0 <= i < es.len() ==> tablebase::valid_key(#[trigger] es[i].0)
}

proof fn lemma_decode_step(b: Seq<u8>, o: int, n: nat)
    requires
        n > 0,
        0 <= o,
        o + 1 <= b.len(),
        o + 1 + b[o] + 4 <= b.len(),
        o + 1 + b[o] + 4 + le_value(b.subrange(o + 1 + b[o], o + 1 + b[o] + 4)) <= b.len(),
    ensures
        ({
            let kl = b[o] as int;
            let lo = o + 1 + kl;
            let vl = le_value(b.subrange(lo, lo + 4)) as int;
            let vo = lo + 4;
            decode_entries(b, o, n) == match decode_entries(b, vo + vl, (n - 1) as nat) {
                None => None,
                Some(rest) => Some(seq![(b.subrange(o + 1, lo), b.subrange(vo, vo + vl))] + rest),
            }
        }),
{
}

/// Reads a saved store: None when the bytes end before the entries do, or an entry's key does
/// not name a table; otherwise the store of the entries, added in order.
pub fn store_from_bytes(b: &[u8]) -> (r: Option<Store>)
    requires
        b@.len() >= 4,
    ensures
        match decode_store(b@) {
            None => r is None,
            Some(es) => if keys_valid(es) {
                r matches Some(st) && st@ == entries_map(es)
            } else {
                r is None
            },
        },
{
    let n = read_u32_le(b, 0);
    let mut o: usize = 4;
    let mut store = Store::new();
    let ghost mut done: Seq<(Seq<u8>, Seq<u8>)> = Seq::empty();
    let mut k: u64 = 0;
    while k < n
        invariant
            0 <= k <= n,
            n == le_value(b@.subrange(0, 4)),
            4 <= o <= b@.len(),
            keys_valid(done),
            store@ == entries_map(done),
            decode_store(b@) == match decode_entries(b@, o as int, (n - k) as nat) {
                None => None,
                Some(rest) => Some(done + rest),
            },
        decreases n - k,
    {
        let ghost rest_n = (n - k) as nat;
        if o >= b.len() {
            return None;
        }
        let kl = b[o] as usize;
        let ko = o + 1;
        if kl > b.len() - ko {
            return None;
        }
        let lo = ko + kl;
        if 4 > b.len() - lo {
            return None;
        }
        let vl64 = read_u32_le(b, lo);
        let vo = lo + 4;
        if vl64 > (b.len() - vo) as u64 {
            return None;
        }
        let vl = vl64 as usize;
        proof {
            lemma_decode_step(b@, o as int, rest_n);
        }
        let key = copy_range(b, ko, lo);
        let val = copy_range(b, vo, vo + vl);
        if !tablebase::is_valid_key(key.as_slice()) {
            proof {
                match decode_entries(b@, (vo + vl) as int, (rest_n - 1) as nat) {
                    Some(rest2) => {
                        let all = done + (seq![(key@, val@)] + rest2);
                        assert(all[done.len() as int].0 == key@);
                        assert(!keys_valid(all));
                    },
                    None => {},
                }
            }
            return None;
        }
        proof {
            lemma_entries_map_push(done, (key@, val@));
            done = done.push((key@, val@));
        }
        let ghost kv = key@;
        let ghost vv = val@;
        store.insert(key, val);
        proof {
            assert forall|i: int| 0 <= i < done.len() implies tablebase::valid_key(#[trigger] done[i].0) by {
                if i < done.len() - 1 {
                    assert(done[i] == done.drop_last()[i]);
                }
            }
            match decode_entries(b@, (vo + vl) as int, (rest_n - 1) as nat) {
                Some(rest2) => {
                    assert(done.drop_last() =~= done.subrange(0, done.len() - 1));
                    assert(done.drop_last() + (seq![(kv, vv)] + rest2) =~= done + rest2);
                },
                None => {},
            }
        }
        o = vo + vl;
        k += 1;
    }
    proof {
        assert(done + Seq::<(Seq<u8>, Seq<u8>)>::empty() =~= done);
    }
    Some(store)
}

// ── Reading back what was written ───────────────────────────────────────────

/// The entries of a store whose sets are `keys`, in that order.
pub open spec fn store_entries(keys: Seq<Seq<u8>>, st: Map<Seq<u8>, Seq<u8>>) -> Seq<(Seq<u8>, Seq<u8>)> {
    Seq::new(keys.len(), |i: int| (keys[i], st[keys[i]]))
}

/// `keys` lists the sets of `st`, each once and each naming a table, and the set count and
/// every table length fit the format's `u32` fields.
pub open spec fn saveable(keys: Seq<Seq<u8>>, st: Map<Seq<u8>, Seq<u8>>) -> bool {
    &&& keys.len() <= u32::MAX
    &&& keys.no_duplicates()
    &&& forall|i: int| 0 <= i < keys.len() ==> tablebase::valid_key(#[trigger] keys[i])
    &&& forall|i: int| 0 <= i < keys.len() ==> #[trigger] st[keys[i]].len() <= u32::MAX
    &&& forall|s: Seq<u8>| #[trigger] st.contains_key(s) <==> keys.contains(s)
}

/// Bytes of a list of entries, first entry first.
pub open spec fn list_bytes(es: Seq<(Seq<u8>, Seq<u8>)>) -> Seq<u8>
    decreases es.len(),
{
    if es.len() == 0 {
        Seq::empty()
    } else {
        entry_bytes(es[0].0, es[0].1) + list_bytes(es.drop_first())
    }
}

/// Four little-endian bytes read back give the number written.
proof fn lemma_le_roundtrip(v: nat)
    requires
        v <= u32::MAX,
    ensures
        le_value(u32_le(v)) == v,
{
    let b = u32_le(v);
    assert(b[0] == v % 256);
    assert(b[1] == v / 256 % 256);
    assert(b[2] == v / 65536 % 256);
    assert(b[3] == v / 16777216 % 256);
    assert((v % 256) + 256 * (v / 256 % 256) + 65536 * (v / 65536 % 256) + 16777216 * (v / 16777216 % 256) == v)
        by (nonlinear_arith)
        requires
            v <= 4294967295,
    {
        assert(v == 256 * (v / 256) + v % 256);
        assert(v / 256 == 256 * (v / 65536) + v / 256 % 256);
        assert(v / 65536 == 256 * (v / 16777216) + v / 65536 % 256);
        assert(v / 16777216 < 256);
    }
}

/// The entries' bytes in order of the sets, written as one entry followed by the rest.
proof fn lemma_entries_as_list(keys: Seq<Seq<u8>>, st: Map<Seq<u8>, Seq<u8>>, n: int)
    requires
        0 <= n <= keys.len(),
    ensures
        entries_bytes(keys, st, n) == list_bytes(store_entries(keys, st).take(n)),
    decreases n,
{
    let es = store_entries(keys, st);
    if n > 0 {
        lemma_entries_as_list(keys, st, n - 1);
        lemma_list_push(es.take(n - 1), es[n - 1]);
        assert(es.take(n - 1).push(es[n - 1]) =~= es.take(n));
    }
}

/// Appending an entry appends its bytes.
proof fn lemma_list_push(es: Seq<(Seq<u8>, Seq<u8>)>, e: (Seq<u8>, Seq<u8>))
    ensures
        list_bytes(es.push(e)) == list_bytes(es) + entry_bytes(e.0, e.1),
    decreases es.len(),
{
    if es.len() == 0 {
        assert(es.push(e).drop_first() =~= Seq::<(Seq<u8>, Seq<u8>)>::empty());
        assert(es.push(e)[0] == e);
        assert(list_bytes(es.push(e).drop_first()) == Seq::<u8>::empty());
        assert(list_bytes(es) == Seq::<u8>::empty());
        assert(list_bytes(es.push(e)) =~= list_bytes(es) + entry_bytes(e.0, e.1));
    } else {
        lemma_list_push(es.drop_first(), e);
        assert(es.push(e).drop_first() =~= es.drop_first().push(e));
        assert(es.push(e)[0] == es[0]);
        assert(list_bytes(es.push(e)) =~= list_bytes(es) + entry_bytes(e.0, e.1));
    }
}

/// Entries whose bytes stand at offset `o` of `b` decode there, in order.
proof fn lemma_decode_list(b: Seq<u8>, o: int, es: Seq<(Seq<u8>, Seq<u8>)>)
    requires
        0 <= o,
        o + list_bytes(es).len() <= b.len(),
        b.subrange(o, o + list_bytes(es).len()) == list_bytes(es),
        forall|i: int| 0 <= i < es.len() ==> (#[trigger] es[i]).0.len() < 256 && es[i].1.len() <= u32::MAX,
    ensures
        decode_entries(b, o, es.len()) == Some(es),
    decreases es.len(),
{
    if es.len() > 0 {
        let (k, v) = es[0];
        let rest = es.drop_first();
        let eb = entry_bytes(k, v);
        let lb = list_bytes(es);
        assert(lb == eb + list_bytes(rest));
        assert(eb == seq![k.len() as u8] + k + u32_le(v.len()) + v);
        let kl = k.len() as int;
        let lo = o + 1 + kl;
        let vo = lo + 4;
        let vl = v.len() as int;
        assert(eb.len() == 1 + kl + 4 + vl);
        assert(b[o] == lb[0]);
        assert(b[o] == k.len());
        assert(b.subrange(o + 1, lo) =~= k) by {
            assert forall|j: int| 0 <= j < kl implies b.subrange(o + 1, lo)[j] == k[j] by {
                assert(b[o + 1 + j] == lb[1 + j]);
            }
        }
        assert(b.subrange(lo, lo + 4) =~= u32_le(v.len())) by {
            assert forall|j: int| 0 <= j < 4 implies b.subrange(lo, lo + 4)[j] == u32_le(v.len())[j] by {
                assert(b[lo + j] == lb[1 + kl + j]);
            }
        }
        lemma_le_roundtrip(v.len());
        assert(b.subrange(vo, vo + vl) =~= v) by {
            assert forall|j: int| 0 <= j < vl implies b.subrange(vo, vo + vl)[j] == v[j] by {
                assert(b[vo + j] == lb[1 + kl + 4 + j]);
            }
        }
        assert(b.subrange(vo + vl, vo + vl + list_bytes(rest).len()) =~= list_bytes(rest)) by {
            assert forall|j: int| 0 <= j < list_bytes(rest).len() implies b.subrange(
                vo + vl,
                vo + vl + list_bytes(rest).len(),
            )[j] == list_bytes(rest)[j] by {
                assert(b[vo + vl + j] == lb[eb.len() + j]);
            }
        }
        assert forall|i: int| 0 <= i < rest.len() implies (#[trigger] rest[i]).0.len() < 256 && rest[i].1.len() <= u32::MAX by {
            assert(rest[i] == es[i + 1]);
        }
        lemma_decode_list(b, vo + vl, rest);
        lemma_decode_step(b, o, es.len());
        assert(seq![(k, v)] + rest =~= es);
    }
}

/// The map of the first `n` entries of a store holds exactly their sets, with their tables.
proof fn lemma_entries_map_prefix(keys: Seq<Seq<u8>>, st: Map<Seq<u8>, Seq<u8>>, n: int)
    requires
        0 <= n <= keys.len(),
        keys.no_duplicates(),
    ensures
        forall|s: Seq<u8>| #[trigger] entries_map(store_entries(keys, st).take(n)).contains_key(s)
            <==> keys.take(n).contains(s),
        forall|s: Seq<u8>| keys.take(n).contains(s) ==> #[trigger] entries_map(store_entries(keys, st).take(n))[s] == st[s],
    decreases n,
{
    let es = store_entries(keys, st);
    if n > 0 {
        lemma_entries_map_prefix(keys, st, n - 1);
        lemma_entries_map_push(es.take(n - 1), es[n - 1]);
        assert(es.take(n - 1).push(es[n - 1]) =~= es.take(n));
        let t0 = keys.take(n - 1);
        let t1 = keys.take(n);
        assert forall|s: Seq<u8>| #[trigger] t1.contains(s) <==> (t0.contains(s) || s == keys[n - 1]) by {
            if t1.contains(s) {
                let j = choose|j: int| 0 <= j < t1.len() && t1[j] == s;
                if j < n - 1 {
                    assert(t0[j] == s);
                }
            }
            if t0.contains(s) {
                let j = choose|j: int| 0 <= j < t0.len() && t0[j] == s;
                assert(t1[j] == s);
            }
            if s == keys[n - 1] {
                assert(t1[n - 1] == s);
            }
        }
    } else {
        assert(es.take(0) =~= Seq::<(Seq<u8>, Seq<u8>)>::empty());
        assert forall|s: Seq<u8>| !#[trigger] keys.take(0).contains(s) by {}
    }
}

/// Law: the bytes of a saved store read back as the same store. They decode to the store's
/// entries in the order of its sets, every entry names a table, and the entries give back
/// exactly the store's map.
pub proof fn lemma_store_bytes_roundtrip(keys: Seq<Seq<u8>>, st: Map<Seq<u8>, Seq<u8>>)
    requires
        saveable(keys, st),
    ensures
        store_bytes(keys, st).len() >= 4,
        decode_store(store_bytes(keys, st)) == Some(store_entries(keys, st)),
        keys_valid(store_entries(keys, st)),
        entries_map(store_entries(keys, st)) == st,
{
    let es = store_entries(keys, st);
    let b = store_bytes(keys, st);
    let n = keys.len();
    lemma_entries_as_list(keys, st, n as int);
    assert(es.take(n as int) =~= es);
    assert(b == u32_le(n) + list_bytes(es));
    assert(b.subrange(0, 4) =~= u32_le(n));
    lemma_le_roundtrip(n);
    assert(b.subrange(4, 4 + list_bytes(es).len() as int) =~= list_bytes(es));
    assert forall|i: int| 0 <= i < es.len() implies (#[trigger] es[i]).0.len() < 256 && es[i].1.len() <= u32::MAX by {
        assert(tablebase::valid_key(keys[i]));
    }
    lemma_decode_list(b, 4, es);
    assert forall|i: int| 0 <= i < es.len() implies tablebase::valid_key(#[trigger] es[i].0) by {
        assert(tablebase::valid_key(keys[i]));
    }
    lemma_entries_map_prefix(keys, st, n as int);
    assert(keys.take(n as int) =~= keys);
    assert(entries_map(es) =~= st);
}

} // verus!
