use vstd::prelude::*;
use std::collections::HashMap;
use crate::board::{Parsed, Status, role_of, is_red, is_water, N};
use crate::board;
use crate::status;
use crate::status::status_of;

verus! {

broadcast use vstd::std_specs::hash::group_hash_axioms;


/// Table entry: a draw (or unknown) for the side to move.
pub const TB_DRAW: u8 = 0;
/// Table entry: a win for the side to move.
pub const TB_WIN: u8 = 1;
/// Table entry: a loss for the side to move.
pub const TB_LOSS: u8 = 2;

// ── Material keys ───────────────────────────────────────────────────────────

/// A sequence of piece codes that can name a table: at most 15 codes, each 1..16.
pub open spec fn valid_key(s: Seq<u8>) -> bool {
    &&& s.len() <= 15
    &&& forall|i: int| 0 <= i < s.len() ==> 1 <= #[trigger] s[i] <= 16
}

/// Base-17 number of a code sequence (first code is the lowest digit).
pub open spec fn key_code(s: Seq<u8>) -> int
    decreases s.len(),
{
    if s.len() == 0 {
        0
    } else {
        s[0] + 17 * key_code(s.drop_first())
    }
}

pub open spec fn pow17(n: nat) -> int
    decreases n,
{
    if n == 0 {
        1
    } else {
        17 * pow17((n - 1) as nat)
    }
}

pub(crate) proof fn lemma_key_code_bound(s: Seq<u8>)
    requires
        forall|i: int| 0 <= i < s.len() ==> 1 <= #[trigger] s[i] <= 16,
    ensures
        0 <= key_code(s) < pow17(s.len()),
        s.len() > 0 ==> key_code(s) > 0,
    decreases s.len(),
{
    if s.len() > 0 {
        let t = s.drop_first();
        assert forall|i: int| 0 <= i < t.len() implies 1 <= #[trigger] t[i] <= 16 by {
            assert(t[i] == s[i + 1]);
        }
        lemma_key_code_bound(t);
        assert(pow17(s.len()) == 17 * pow17(t.len()));
    }
}

pub(crate) proof fn lemma_pow17_15()
    ensures
        pow17(15) == 2862423051509815793,
{
    reveal_with_fuel(pow17, 16);
}

pub(crate) proof fn lemma_pow17_mono(a: nat, b: nat)
    requires
        a <= b,
    ensures
        pow17(a) <= pow17(b),
    decreases b,
{
    if a < b {
        lemma_pow17_mono(a, (b - 1) as nat);
        lemma_pow17_pos((b - 1) as nat);
    }
}

proof fn lemma_pow17_pos(a: nat)
    ensures
        pow17(a) >= 1,
    decreases a,
{
    if a > 0 {
        lemma_pow17_pos((a - 1) as nat);
    }
}

/// Different valid keys have different codes.
pub(crate) proof fn lemma_key_code_injective(a: Seq<u8>, b: Seq<u8>)
    requires
        forall|i: int| 0 <= i < a.len() ==> 1 <= #[trigger] a[i] <= 16,
        forall|i: int| 0 <= i < b.len() ==> 1 <= #[trigger] b[i] <= 16,
        key_code(a) == key_code(b),
    ensures
        a == b,
    decreases a.len(),
{
    lemma_key_code_bound(a);
    lemma_key_code_bound(b);
    if a.len() > 0 && b.len() > 0 {
        let ta = a.drop_first();
        let tb = b.drop_first();
        assert forall|i: int| 0 <= i < ta.len() implies 1 <= #[trigger] ta[i] <= 16 by {
            assert(ta[i] == a[i + 1]);
        }
        assert forall|i: int| 0 <= i < tb.len() implies 1 <= #[trigger] tb[i] <= 16 by {
            assert(tb[i] == b[i + 1]);
        }
        lemma_key_code_bound(ta);
        lemma_key_code_bound(tb);
        assert(a[0] == b[0] && key_code(ta) == key_code(tb)) by {
            let x = key_code(a);
            assert(x == a[0] + 17 * key_code(ta));
            assert(x == b[0] + 17 * key_code(tb));
            assert(x % 17 == a[0] as int % 17) by (nonlinear_arith)
                requires
                    x == a[0] + 17 * key_code(ta),
                    key_code(ta) >= 0,
                    1 <= a[0] <= 16,
            ;
            assert(x % 17 == b[0] as int % 17) by (nonlinear_arith)
                requires
                    x == b[0] + 17 * key_code(tb),
                    key_code(tb) >= 0,
                    1 <= b[0] <= 16,
            ;
        }
        lemma_key_code_injective(ta, tb);
        assert(a == seq![a[0]] + ta);
        assert(b == seq![b[0]] + tb);
    }
}

/// Code of a valid key.
pub(crate) fn key_of(s: &[u8]) -> (k: u64)
    requires
        valid_key(s@),
    ensures
        k == key_code(s@),
{
    let mut acc: u64 = 0;
    let mut i: usize = s.len();
    proof {
        lemma_pow17_15();
    }
    while i > 0
        invariant
            0 <= i <= s@.len(),
            valid_key(s@),
            pow17(15) == 2862423051509815793,
            acc == key_code(s@.subrange(i as int, s@.len() as int)),
        decreases i,
    {
        i -= 1;
        let ghost t = s@.subrange(i as int, s@.len() as int);
        assert(t.drop_first() == s@.subrange(i + 1, s@.len() as int));
        assert forall|j: int| 0 <= j < t.len() implies 1 <= #[trigger] t[j] <= 16 by {
            assert(t[j] == s@[i + j]);
        }
        proof {
            lemma_key_code_bound(t);
            lemma_pow17_mono(t.len(), 15);
        }
        acc = s[i] as u64 + 17 * acc;
    }
    assert(s@.subrange(0, s@.len() as int) == s@);
    acc
}

pub(crate) fn is_valid_key(s: &[u8]) -> (b: bool)
    ensures
        b == valid_key(s@),
{
    if s.len() > 15 {
        return false;
    }
    let mut i: usize = 0;
    while i < s.len()
        invariant
            0 <= i <= s@.len(),
            forall|j: int| 0 <= j < i ==> 1 <= #[trigger] s@[j] <= 16,
        decreases s@.len() - i,
    {
        if s[i] < 1 || s[i] > 16 {
            return false;
        }
        i += 1;
    }
    true
}

// ── The store of solved tables ──────────────────────────────────────────────

/// Built tables, keyed by material set (a sequence of piece codes).
pub struct Store {
    tables: HashMap<u64, Vec<u8>>,
    sets: Vec<Vec<u8>>,
}

/// The tables are exactly those of the recorded sets, each set valid and recorded once.
spec fn store_ok(tables: Map<u64, Vec<u8>>, sets: Seq<Vec<u8>>) -> bool {
    &&& forall|i: int| 0 <= i < sets.len() ==> valid_key(#[trigger] sets[i]@)
    &&& forall|i: int, j: int|
        0 <= i < sets.len() && 0 <= j < sets.len() && i != j ==> #[trigger] sets[i]@ != #[trigger] sets[j]@
    &&& forall|k: u64|
        #![trigger tables.contains_key(k)]
        tables.contains_key(k) <==> exists|i: int| 0 <= i < sets.len() && key_code(#[trigger] sets[i]@) == k
}

impl Store {
    #[verifier::type_invariant]
    spec fn inv(self) -> bool {
        store_ok(self.tables@, self.sets@)
    }
}

impl View for Store {
    type V = Map<Seq<u8>, Seq<u8>>;

    closed spec fn view(&self) -> Map<Seq<u8>, Seq<u8>> {
        Map::new(
            |s: Seq<u8>| valid_key(s) && self.tables@.contains_key(key_code(s) as u64),
            |s: Seq<u8>| self.tables@[key_code(s) as u64]@,
        )
    }
}

impl Store {
    /// An empty store.
    pub fn new() -> (st: Store)
        ensures
            st@ == Map::<Seq<u8>, Seq<u8>>::empty(),
    {
        let st = Store { tables: HashMap::new(), sets: Vec::new() };
        assert(st@ =~= Map::<Seq<u8>, Seq<u8>>::empty());
        st
    }

    /// Adds (or replaces) the table of a material set.
    pub fn insert(&mut self, set: Vec<u8>, table: Vec<u8>)
        requires
            valid_key(set@),
        ensures
            final(self)@ == old(self)@.insert(set@, table@),
    {
        proof {
            use_type_invariant(&*self);
        }
        let k = key_of(set.as_slice());
        let ghost old_view = self@;
        proof {
            lemma_key_code_bound(set@);
            lemma_pow17_mono(set@.len(), 15);
            lemma_pow17_15();
        }
        let present = self.tables.contains_key(&k);
        let mut tmp = Store { tables: HashMap::new(), sets: Vec::new() };
        std::mem::swap(&mut tmp, self);
        let Store { mut tables, mut sets } = tmp;
        let ghost old_tables = tables@;
        let ghost old_sets = sets@;
        assert(old_tables == old(self).tables@);
        assert(old_sets == old(self).sets@);
        assert(present == old_tables.contains_key(k));
        if !present {
            sets.push(set);
        }
        tables.insert(k, table);
        let ghost new_sets = sets@;
        proof {
            assert forall|i: int| 0 <= i < new_sets.len() implies valid_key(#[trigger] new_sets[i]@) by {
                if !present && i == old_sets.len() {
                    assert(new_sets[i]@ == set@);
                } else {
                    assert(new_sets[i] == old_sets[i]);
                }
            }
            assert forall|i: int, j: int|
                0 <= i < new_sets.len() && 0 <= j < new_sets.len() && i != j implies #[trigger] new_sets[i]@
                    != #[trigger] new_sets[j]@ by {
                if !present && (i == old_sets.len() || j == old_sets.len()) {
                    let o = if i == old_sets.len() { j } else { i };
                    assert(new_sets[old_sets.len() as int]@ == set@);
                    if new_sets[o]@ == set@ {
                        assert(new_sets[o] == old_sets[o]);
                        assert(key_code(old_sets[o]@) == k);
                        assert(old_tables.contains_key(k));
                    }
                } else {
                    assert(new_sets[i] == old_sets[i]);
                    assert(new_sets[j] == old_sets[j]);
                }
            }
            assert forall|kk: u64| #![trigger tables@.contains_key(kk)]
                tables@.contains_key(kk) <==> exists|i: int|
                    0 <= i < new_sets.len() && key_code(#[trigger] new_sets[i]@) == kk by {
                if kk == k {
                    if present {
                        let i = choose|i: int| 0 <= i < old_sets.len() && key_code(#[trigger] old_sets[i]@) == kk;
                        assert(new_sets[i] == old_sets[i]);
                    } else {
                        assert(new_sets[old_sets.len() as int]@ == set@);
                    }
                } else {
                    if exists|i: int| 0 <= i < new_sets.len() && key_code(#[trigger] new_sets[i]@) == kk {
                        let i = choose|i: int| 0 <= i < new_sets.len() && key_code(#[trigger] new_sets[i]@) == kk;
                        if !present && i == old_sets.len() {
                            assert(new_sets[i]@ == set@);
                        } else {
                            assert(new_sets[i] == old_sets[i]);
                        }
                    }
                    if old_tables.contains_key(kk) {
                        let i = choose|i: int| 0 <= i < old_sets.len() && key_code(#[trigger] old_sets[i]@) == kk;
                        assert(new_sets[i] == old_sets[i]);
                    }
                }
            }
        }
        assert(store_ok(tables@, sets@));
        *self = Store { tables, sets };
        proof {
            assert(self.tables@ == old_tables.insert(k, table));
            assert forall|s: Seq<u8>| #![auto] self@.contains_key(s) <==> old_view.insert(set@, table@).contains_key(s) by {
                if valid_key(s) {
                    lemma_key_code_bound(s);
                    lemma_pow17_mono(s.len(), 15);
                    if key_code(s) == key_code(set@) {
                        lemma_key_code_injective(s, set@);
                    }
                }
            }
            assert forall|s: Seq<u8>| #![auto] self@.contains_key(s) implies self@[s] == old_view.insert(set@, table@)[s] by {
                lemma_key_code_bound(s);
                lemma_pow17_mono(s.len(), 15);
                if s != set@ {
                    if key_code(s) == key_code(set@) {
                        lemma_key_code_injective(s, set@);
                    }
                }
            }
            assert(self@ =~= old_view.insert(set@, table@));
        }
    }

    /// The table of a material set, if the store holds one.
    pub fn get(&self, set: &[u8]) -> (t: Option<&Vec<u8>>)
        ensures
            match t {
                Some(v) => self@.contains_key(set@) && self@[set@] == v@,
                None => !self@.contains_key(set@),
            },
    {
        if !is_valid_key(set) {
            return None;
        }
        let k = key_of(set);
        proof {
            lemma_key_code_bound(set@);
            lemma_pow17_mono(set@.len(), 15);
            lemma_pow17_15();
        }
        self.tables.get(&k)
    }

    /// The material sets that the store holds, in the order they were first added.
    pub closed spec fn keys(&self) -> Seq<Seq<u8>> {
        self.sets@.map_values(|v: Vec<u8>| v@)
    }

    /// The material sets that the store holds, each once, in the order they were first added.
    pub fn sets(&self) -> (r: Vec<Vec<u8>>)
        ensures
            r@.len() == self.keys().len(),
            forall|i: int| 0 <= i < r@.len() ==> #[trigger] r@[i]@ == self.keys()[i],
            forall|i: int| 0 <= i < r@.len() ==> valid_key(#[trigger] r@[i]@),
            forall|i: int| 0 <= i < r@.len() ==> self@.contains_key(#[trigger] r@[i]@),
            forall|s: Seq<u8>| self@.contains_key(s) ==> exists|i: int| 0 <= i < r@.len() && #[trigger] r@[i]@ == s,
            forall|i: int, j: int| 0 <= i < r@.len() && 0 <= j < r@.len() && i != j ==> #[trigger] r@[i]@ != #[trigger] r@[j]@,
    {
        proof {
            use_type_invariant(self);
        }
        let mut r: Vec<Vec<u8>> = Vec::new();
        let mut i: usize = 0;
        while i < self.sets.len()
            invariant
                0 <= i <= self.sets@.len(),
                r@.len() == i,
                forall|j: int| 0 <= j < i ==> #[trigger] r@[j]@ == self.sets@[j]@,
            decreases self.sets@.len() - i,
        {
            let s = self.sets[i].clone();
            r.push(s);
            i += 1;
        }
        proof {
            assert forall|j: int| 0 <= j < r@.len() implies valid_key(#[trigger] r@[j]@) by {
                assert(valid_key(self.sets@[j]@));
            }
            assert forall|j: int| 0 <= j < r@.len() implies self@.contains_key(#[trigger] r@[j]@) by {
                assert(valid_key(self.sets@[j]@));
                lemma_key_code_bound(self.sets@[j]@);
                lemma_pow17_mono(self.sets@[j]@.len(), 15);
                lemma_pow17_15();
                assert(self.tables@.contains_key(key_code(self.sets@[j]@) as u64));
            }
            assert forall|s: Seq<u8>| self@.contains_key(s) implies exists|j: int| 0 <= j < r@.len() && #[trigger] r@[j]@ == s by {
                let kk = key_code(s) as u64;
                assert(self.tables@.contains_key(kk));
                let j = choose|j: int| 0 <= j < self.sets@.len() && key_code(#[trigger] self.sets@[j]@) == kk;
                lemma_key_code_bound(s);
                lemma_pow17_mono(s.len(), 15);
                lemma_pow17_15();
                lemma_key_code_injective(s, self.sets@[j]@);
                assert(r@[j]@ == s);
            }
        }
        r
    }
}

// ── Material of a position ──────────────────────────────────────────────────

/// Occurrences of code `c` among the first `k` squares.
pub open spec fn count_code(sq: Seq<u8>, c: u8, k: int) -> nat
    decreases k,
{
    if k <= 0 {
        0
    } else {
        count_code(sq, c, k - 1) + if sq[k - 1] == c {
            1nat
        } else {
            0nat
        }
    }
}

/// The codes 1..c on the board in increasing order, each as often as it occurs.
pub open spec fn material_upto(sq: Seq<u8>, c: int) -> Seq<u8>
    decreases c,
{
    if c <= 0 {
        Seq::empty()
    } else {
        material_upto(sq, c - 1) + Seq::new(count_code(sq, c as u8, 63), |i: int| c as u8)
    }
}

/// The sorted multiset of piece codes on the board: the material-set key of a position.
pub open spec fn material_spec(sq: Seq<u8>) -> Seq<u8> {
    material_upto(sq, 255)
}

proof fn lemma_material_above(sq: Seq<u8>, hi: int, c: int)
    requires
        0 <= hi <= c <= 255,
        forall|x: u8| hi < x ==> #[trigger] count_code(sq, x, 63) == 0,
    ensures
        material_upto(sq, c) == material_upto(sq, hi),
    decreases c,
{
    if c > hi {
        lemma_material_above(sq, hi, c - 1);
        assert(count_code(sq, c as u8, 63) == 0);
        assert(material_upto(sq, c) == material_upto(sq, c - 1) + Seq::<u8>::empty());
    }
}

/// Sorted multiset of the piece codes on the board: the key of its material set.
pub fn material_key(p: &Parsed) -> (codes: Vec<u8>)
    ensures
        codes@ == material_spec(p.squares@),
{
    let mut cnt = [0u8; 256];
    let mut hi: u8 = 0;
    let mut i: usize = 0;
    while i < N
        invariant
            0 <= i <= 63,
            forall|c: int| 0 < c < 256 ==> #[trigger] cnt[c] == count_code(p.squares@, c as u8, i as int),
            forall|c: int| 0 < c < 256 ==> #[trigger] count_code(p.squares@, c as u8, i as int) <= i,
            forall|x: u8| hi < x ==> #[trigger] count_code(p.squares@, x, i as int) == 0,
        decreases 63 - i,
    {
        let c = p.squares[i];
        assert(forall|x: int| 0 < x < 256 ==> #[trigger] count_code(p.squares@, x as u8, i + 1) == count_code(
            p.squares@,
            x as u8,
            i as int,
        ) + if p.squares@[i as int] == x as u8 {
            1nat
        } else {
            0nat
        });
        assert(forall|x: u8| #[trigger] count_code(p.squares@, x, i + 1) == count_code(p.squares@, x, i as int)
            + if p.squares@[i as int] == x {
            1nat
        } else {
            0nat
        });
        if c != 0 {
            cnt[c as usize] = cnt[c as usize] + 1;
            if c > hi {
                hi = c;
            }
        }
        i += 1;
    }
    let mut codes: Vec<u8> = Vec::new();
    let mut c: u8 = 1;
    while c <= hi
        invariant
            1 <= c <= hi as int + 1,
            hi <= 255,
            forall|x: int| 0 < x < 256 ==> #[trigger] cnt[x] == count_code(p.squares@, x as u8, 63),
            codes@ == material_upto(p.squares@, c - 1),
        decreases hi + 1 - c,
    {
        let n = cnt[c as usize];
        let mut j: u8 = 0;
        let ghost base = codes@;
        while j < n
            invariant
                0 <= j <= n,
                codes@ == base + Seq::new(j as nat, |i: int| c),
            decreases n - j,
        {
            codes.push(c);
            j += 1;
            assert(codes@ == base + Seq::new(j as nat, |i: int| c));
        }
        assert(material_upto(p.squares@, c as int) == material_upto(p.squares@, c - 1) + Seq::new(
            count_code(p.squares@, c, 63),
            |i: int| c,
        ));
        if c == 255 {
            proof {
                lemma_material_above(p.squares@, hi as int, 255);
            }
            return codes;
        }
        c += 1;
    }
    proof {
        lemma_material_above(p.squares@, hi as int, 255);
    }
    codes
}

/// A material set: strictly increasing piece codes 1..16 with at least one red (1..8) and one
/// black (9..16) piece.
pub open spec fn is_material_set(s: Seq<u8>) -> bool {
    &&& forall|i: int| 0 <= i < s.len() ==> 1 <= #[trigger] s[i] <= 16
    &&& forall|i: int, j: int| 0 <= i < j < s.len() ==> #[trigger] s[i] < #[trigger] s[j]
    &&& exists|i: int| 0 <= i < s.len() && #[trigger] s[i] <= 8
    &&& exists|i: int| 0 <= i < s.len() && #[trigger] s[i] >= 9
}

fn has_red_and_black(cur: &Vec<u8>) -> (b: bool)
    ensures
        b == ((exists|i: int| 0 <= i < cur@.len() && #[trigger] cur@[i] <= 8) && (exists|i: int|
            0 <= i < cur@.len() && #[trigger] cur@[i] >= 9)),
{
    let mut red = false;
    let mut black = false;
    let mut i: usize = 0;
    while i < cur.len()
        invariant
            0 <= i <= cur@.len(),
            red == (exists|j: int| 0 <= j < i && #[trigger] cur@[j] <= 8),
            black == (exists|j: int| 0 <= j < i && #[trigger] cur@[j] >= 9),
        decreases cur@.len() - i,
    {
        if cur[i] <= 8 {
            red = true;
        }
        if cur[i] >= 9 {
            black = true;
        }
        i += 1;
    }
    red && black
}

/// `s` extends `cur` with codes from `start` on.
pub open spec fn extends_from(s: Seq<u8>, cur: Seq<u8>, start: int) -> bool {
    &&& cur.len() <= s.len()
    &&& s.take(cur.len() as int) == cur
    &&& forall|j: int| cur.len() <= j < s.len() ==> #[trigger] s[j] >= start
}

/// `a` comes before `b` in lexicographic order: they agree up to a place where `a` is smaller.
pub open spec fn lex_less(a: Seq<u8>, b: Seq<u8>) -> bool {
    exists|j: int| #![trigger a[j], b[j]] 0 <= j < a.len() && j < b.len() && a.take(j) == b.take(j) && a[j] < b[j]
}

fn material_sets_rec(start: u8, k: usize, cur: &mut Vec<u8>, out: &mut Vec<Vec<u8>>)
    requires
        1 <= start <= 17,
        old(cur)@.len() <= k,
        forall|i: int| 0 <= i < old(cur)@.len() ==> 1 <= #[trigger] old(cur)@[i] < start,
        forall|i: int, j: int| 0 <= i < j < old(cur)@.len() ==> #[trigger] old(cur)@[i] < #[trigger] old(cur)@[j],
    ensures
        final(cur)@ == old(cur)@,
        final(out)@.len() >= old(out)@.len(),
        forall|i: int| 0 <= i < old(out)@.len() ==> #[trigger] final(out)@[i] == old(out)@[i],
        forall|i: int|
            old(out)@.len() <= i < final(out)@.len() ==> is_material_set(#[trigger] final(out)@[i]@)
                && final(out)@[i]@.len() == k,
        forall|s: Seq<u8>|
            is_material_set(s) && s.len() == k && #[trigger] extends_from(s, old(cur)@, start as int) ==> exists|i: int|
                old(out)@.len() <= i < final(out)@.len() && #[trigger] final(out)@[i]@ == s,
        forall|i: int|
            old(out)@.len() <= i < final(out)@.len() ==> extends_from(#[trigger] final(out)@[i]@, old(cur)@, start as int),
        forall|i: int, j: int|
            old(out)@.len() <= i < j < final(out)@.len() ==> lex_less(#[trigger] final(out)@[i]@, #[trigger] final(out)@[j]@),
    decreases k - old(cur)@.len(),
{
    if cur.len() == k {
        if has_red_and_black(cur) {
            let c = cur.clone();
            out.push(c);
            proof {
                assert forall|s: Seq<u8>|
                    is_material_set(s) && s.len() == k && #[trigger] extends_from(s, old(cur)@, start as int) implies exists|i: int|
                        old(out)@.len() <= i < out@.len() && #[trigger] out@[i]@ == s by {
                    assert(s.take(k as int) =~= s);
                    assert(out@[old(out)@.len() as int]@ == s);
                }
                let o = out@[old(out)@.len() as int]@;
                assert(o == old(cur)@);
                assert(o.take(k as int) =~= old(cur)@);
                assert(extends_from(o, old(cur)@, start as int));
            }
        } else {
            proof {
                assert forall|s: Seq<u8>|
                    is_material_set(s) && s.len() == k && #[trigger] extends_from(s, old(cur)@, start as int) implies false by {
                    assert(s.take(k as int) =~= s);
                    assert(s == cur@);
                }
            }
        }
        return;
    }
    let mut code: u8 = start;
    while code <= 16
        invariant
            1 <= start <= code <= 17,
            cur@ == old(cur)@,
            forall|i: int| 0 <= i < old(cur)@.len() ==> 1 <= #[trigger] old(cur)@[i] < start,
            forall|i: int, j: int| 0 <= i < j < old(cur)@.len() ==> #[trigger] old(cur)@[i] < #[trigger] old(cur)@[j],
            old(cur)@.len() < k,
            out@.len() >= old(out)@.len(),
            forall|i: int| 0 <= i < old(out)@.len() ==> #[trigger] out@[i] == old(out)@[i],
            forall|i: int|
                old(out)@.len() <= i < out@.len() ==> is_material_set(#[trigger] out@[i]@) && out@[i]@.len()
                    == k,
            forall|s: Seq<u8>|
                is_material_set(s) && s.len() == k && #[trigger] extends_from(s, old(cur)@, start as int)
                    && s[old(cur)@.len() as int] < code ==> exists|i: int|
                    old(out)@.len() <= i < out@.len() && #[trigger] out@[i]@ == s,
            forall|i: int|
                old(out)@.len() <= i < out@.len() ==> extends_from(#[trigger] out@[i]@, old(cur)@, start as int)
                    && out@[i]@[old(cur)@.len() as int] < code,
            forall|i: int, j: int|
                old(out)@.len() <= i < j < out@.len() ==> lex_less(#[trigger] out@[i]@, #[trigger] out@[j]@),
        decreases 17 - code,
    {
        let ghost before = out@;
        cur.push(code);
        let ghost pushed = cur@;
        material_sets_rec(code + 1, k, cur, out);
        cur.pop();
        proof {
            assert(cur@ =~= old(cur)@);
            assert forall|i: int| old(out)@.len() <= i < out@.len() implies is_material_set(#[trigger] out@[i]@)
                && out@[i]@.len() == k by {
                if i < before.len() {
                    assert(out@[i] == before[i]);
                }
            }
            assert forall|s: Seq<u8>|
                is_material_set(s) && s.len() == k && #[trigger] extends_from(s, old(cur)@, start as int)
                    && s[old(cur)@.len() as int] < code + 1 implies exists|i: int|
                    old(out)@.len() <= i < out@.len() && #[trigger] out@[i]@ == s by {
                let n = old(cur)@.len() as int;
                if s[n] < code {
                    let i = choose|i: int| old(out)@.len() <= i < before.len() && #[trigger] before[i]@ == s;
                    assert(out@[i] == before[i]);
                } else {
                    assert(s[n] == code);
                    assert(s.take(n + 1) =~= pushed);
                    assert forall|j: int| n + 1 <= j < s.len() implies #[trigger] s[j] >= code + 1 by {
                        assert(s[n] < s[j]);
                    }
                    assert(extends_from(s, pushed, code + 1));
                }
            }
            let n = old(cur)@.len() as int;
            assert forall|i: int|
                old(out)@.len() <= i < out@.len() implies extends_from(#[trigger] out@[i]@, old(cur)@, start as int)
                && out@[i]@[n] < code + 1 by {
                if i < before.len() {
                    assert(out@[i] == before[i]);
                } else {
                    let o = out@[i]@;
                    assert(extends_from(o, pushed, code + 1));
                    assert(o.take(n + 1)[n] == pushed[n]);
                    assert(o.take(n) =~= o.take(n + 1).take(n));
                    assert(pushed.take(n) =~= old(cur)@);
                }
            }
            assert forall|i: int, j: int| old(out)@.len() <= i < j < out@.len() implies lex_less(
                #[trigger] out@[i]@,
                #[trigger] out@[j]@,
            ) by {
                if j < before.len() {
                    assert(out@[i] == before[i]);
                    assert(out@[j] == before[j]);
                } else if i < before.len() {
                    assert(out@[i] == before[i]);
                    let a = out@[i]@;
                    let b = out@[j]@;
                    assert(extends_from(b, pushed, code + 1));
                    assert(b.take(n + 1)[n] == pushed[n]);
                    assert(b.take(n) =~= b.take(n + 1).take(n));
                    assert(pushed.take(n) =~= old(cur)@);
                    assert(a.take(n) == b.take(n));
                    assert(a[n] < b[n]);
                }
            }
        }
        code += 1;
    }
    proof {
        assert forall|s: Seq<u8>|
            is_material_set(s) && s.len() == k && #[trigger] extends_from(s, old(cur)@, start as int) implies exists|i: int|
                old(out)@.len() <= i < out@.len() && #[trigger] out@[i]@ == s by {
            assert(s[old(cur)@.len() as int] <= 16);
        }
    }
}

/// All k-piece material sets with at least one red and one black piece, codes ascending, in
/// lexicographic order; every such set is listed.
pub fn material_sets(k: usize) -> (sets: Vec<Vec<u8>>)
    ensures
        forall|i: int| 0 <= i < sets@.len() ==> is_material_set(#[trigger] sets@[i]@) && sets@[i]@.len() == k,
        forall|s: Seq<u8>| is_material_set(s) && s.len() == k ==> exists|i: int| 0 <= i < sets@.len() && #[trigger] sets@[i]@ == s,
        forall|i: int, j: int| 0 <= i < j < sets@.len() ==> lex_less(#[trigger] sets@[i]@, #[trigger] sets@[j]@),
        forall|i: int, j: int| 0 <= i < sets@.len() && 0 <= j < sets@.len() && i != j ==> #[trigger] sets@[i]@ != #[trigger] sets@[j]@,
{
    let mut out: Vec<Vec<u8>> = Vec::new();
    let mut cur: Vec<u8> = Vec::new();
    if k > 16 {
        proof {
            assert forall|s: Seq<u8>| is_material_set(s) && s.len() == k implies false by {
                lemma_strict_len(s, 16);
            }
        }
        return out;
    }
    material_sets_rec(1, k, &mut cur, &mut out);
    proof {
        assert forall|s: Seq<u8>| is_material_set(s) && s.len() == k implies exists|i: int| 0 <= i < out@.len() && #[trigger] out@[i]@ == s by {
            assert(s.take(0) =~= Seq::<u8>::empty());
            assert(extends_from(s, Seq::<u8>::empty(), 1));
        }
        assert forall|i: int, j: int| 0 <= i < out@.len() && 0 <= j < out@.len() && i != j implies #[trigger] out@[i]@
            != #[trigger] out@[j]@ by {
            let (a, b) = if i < j {
                (out@[i]@, out@[j]@)
            } else {
                (out@[j]@, out@[i]@)
            };
            assert(lex_less(a, b));
            let w = choose|w: int| #![trigger a[w], b[w]] 0 <= w < a.len() && w < b.len() && a.take(w) == b.take(w) && a[w] < b[w];
            assert(a[w] != b[w]);
        }
    }
    out
}

/// A strictly increasing sequence of codes 1..=m has at most m codes.
proof fn lemma_strict_len(s: Seq<u8>, m: int)
    requires
        m >= 0,
        forall|i: int| 0 <= i < s.len() ==> 1 <= #[trigger] s[i] <= m,
        forall|i: int, j: int| 0 <= i < j < s.len() ==> #[trigger] s[i] < #[trigger] s[j],
    ensures
        s.len() <= m,
    decreases s.len(),
{
    if s.len() > 0 {
        let t = s.drop_last();
        assert forall|i: int| 0 <= i < t.len() implies 1 <= #[trigger] t[i] <= s.last() - 1 by {
            assert(t[i] == s[i]);
            assert(s[i] < s[s.len() - 1]);
        }
        assert forall|i: int, j: int| 0 <= i < j < t.len() implies #[trigger] t[i] < #[trigger] t[j] by {
            assert(t[i] == s[i] && t[j] == s[j]);
        }
        assert(1 <= s[s.len() - 1] <= m);
        lemma_strict_len(t, s.last() - 1);
    }
}

// ── Table indexing ──────────────────────────────────────────────────────────

pub open spec fn pow63(n: nat) -> nat
    decreases n,
{
    if n == 0 {
        1
    } else {
        63 * pow63((n - 1) as nat)
    }
}

/// Number of entries of the table of a `k`-piece set: two sides to move times 63^k placements.
pub open spec fn table_size(k: nat) -> nat {
    2 * pow63(k)
}

/// Square of the `i`-th piece in table index `idx` (base-63 digits after the side-to-move bit).
pub open spec fn tb_sq(idx: int, i: int) -> int {
    (idx / 2) / (pow63(i as nat) as int) % 63
}

/// The den that the owner of `code` may not stand on.
pub open spec fn own_den_of(code: u8) -> int {
    if is_red(code) {
        3
    } else {
        59
    }
}

/// The `i`-th piece of index `idx` may stand where the index puts it: only a rat in water, no
/// piece on its own den, no two pieces on one square.
pub open spec fn tb_place_ok(pieces: Seq<u8>, idx: int, i: int) -> bool {
    let s = tb_sq(idx, i);
    &&& (!is_water(s as u8) || role_of(pieces[i]) == 1)
    &&& s != own_den_of(pieces[i])
    &&& forall|j: int| 0 <= j < i ==> #[trigger] tb_sq(idx, j) != s
}

/// Every piece of index `idx` stands where it may.
pub open spec fn tb_valid(pieces: Seq<u8>, idx: int) -> bool {
    forall|i: int| 0 <= i < pieces.len() ==> #[trigger] tb_place_ok(pieces, idx, i)
}

/// Code on square `s` after placing the first `i` pieces of index `idx`.
pub open spec fn placed(pieces: Seq<u8>, idx: int, i: int, s: int) -> u8
    decreases i,
{
    if i <= 0 {
        0
    } else if tb_sq(idx, i - 1) == s {
        pieces[i - 1]
    } else {
        placed(pieces, idx, i - 1, s)
    }
}

pub(crate) proof fn lemma_placed_nonzero(pieces: Seq<u8>, idx: int, i: int, s: int)
    requires
        0 <= i <= pieces.len(),
        forall|j: int| 0 <= j < pieces.len() ==> #[trigger] pieces[j] != 0,
    ensures
        placed(pieces, idx, i, s) != 0 <==> exists|j: int| 0 <= j < i && #[trigger] tb_sq(idx, j) == s,
    decreases i,
{
    if i > 0 {
        lemma_placed_nonzero(pieces, idx, i - 1, s);
        if exists|j: int| 0 <= j < i && #[trigger] tb_sq(idx, j) == s {
            let j = choose|j: int| 0 <= j < i && #[trigger] tb_sq(idx, j) == s;
            if j < i - 1 {
            }
        }
    }
}

/// The position of table index `idx` (side to move in the low bit, then one base-63 digit per
/// piece), or None when two pieces share a square, a non-rat stands in water, or a piece
/// stands on its own den.
pub(crate) fn tb_pos(pieces: &[u8], idx: usize) -> (r: Option<Parsed>)
    requires
        forall|j: int| 0 <= j < pieces@.len() ==> #[trigger] pieces@[j] != 0,
    ensures
        r is Some <==> tb_valid(pieces@, idx as int),
        r matches Some(q) ==> {
            &&& q.turn == idx % 2
            &&& q.progress == 0
            &&& q.movenum == 1
            &&& forall|s: int| 0 <= s < 63 ==> #[trigger] q.squares[s] == placed(pieces@, idx as int, pieces@.len() as int, s)
        },
{
    let stm = (idx % 2) as u8;
    let mut rest = idx / 2;
    let mut squares = [0u8; N];
    let mut i: usize = 0;
    let ghost mut pw: nat = 1;
    while i < pieces.len()
        invariant
            0 <= i <= pieces@.len(),
            forall|j: int| 0 <= j < pieces@.len() ==> #[trigger] pieces@[j] != 0,
            pw == pow63(i as nat),
            rest == (idx as int / 2) / (pw as int),
            forall|j: int| 0 <= j < i ==> #[trigger] tb_place_ok(pieces@, idx as int, j),
            forall|s: int| 0 <= s < 63 ==> #[trigger] squares[s] == placed(pieces@, idx as int, i as int, s),
        decreases pieces@.len() - i,
    {
        let code = pieces[i];
        let sq = rest % N;
        proof {
            lemma_pow63_pos(i as nat);
            vstd::arithmetic::div_mod::lemma_div_denominator(idx as int / 2, pw as int, 63);
        }
        assert(sq == tb_sq(idx as int, i as int));
        rest = rest / N;
        proof {
            lemma_placed_nonzero(pieces@, idx as int, i as int, sq as int);
        }
        if squares[sq] != 0 {
            proof {
                let j = choose|j: int| 0 <= j < i && #[trigger] tb_sq(idx as int, j) == sq;
                assert(!tb_place_ok(pieces@, idx as int, i as int));
            }
            return None;
        }
        if is_water(sq as u8) && role_of(code) != 1 {
            assert(!tb_place_ok(pieces@, idx as int, i as int));
            return None;
        }
        let own_den: u8 = if is_red(code) {
            3
        } else {
            59
        };
        if sq as u8 == own_den {
            assert(!tb_place_ok(pieces@, idx as int, i as int));
            return None;
        }
        squares[sq] = code;
        proof {
            pw = pw * 63;
        }
        i += 1;
    }
    Some(Parsed { squares, turn: stm, progress: 0, movenum: 1 })
}

pub(crate) proof fn lemma_pow63_pos(n: nat)
    ensures
        pow63(n) >= 1,
    decreases n,
{
    if n > 0 {
        lemma_pow63_pos((n - 1) as nat);
    }
}

pub(crate) proof fn lemma_pow63_mono(a: nat, b: nat)
    requires
        a <= b,
    ensures
        pow63(a) <= pow63(b),
    decreases b,
{
    if a < b {
        lemma_pow63_mono(a, (b - 1) as nat);
        lemma_pow63_pos((b - 1) as nat);
    }
}

/// The first square (from a1) holding `code`, or 63 when there is none.
pub open spec fn first_sq(sq: Seq<u8>, code: u8, s: int) -> int
    decreases 63 - s,
{
    if s >= 63 {
        63
    } else if sq[s] == code {
        s
    } else {
        first_sq(sq, code, s + 1)
    }
}

/// Base-63 number of the squares of the first `i` pieces.
pub open spec fn tb_digits(pieces: Seq<u8>, sq: Seq<u8>, i: int) -> int
    decreases i,
{
    if i <= 0 {
        0
    } else {
        tb_digits(pieces, sq, i - 1) + first_sq(sq, pieces[i - 1], 0) * pow63((i - 1) as nat)
    }
}

/// Table index of a position holding each piece of `pieces`.
pub open spec fn tb_index_spec(pieces: Seq<u8>, p: Parsed) -> int {
    2 * tb_digits(pieces, p.squares@, pieces.len() as int) + p.turn
}

pub(crate) proof fn lemma_first_sq(sq: Seq<u8>, code: u8, s: int)
    requires
        0 <= s <= 63,
        sq.len() == 63,
    ensures
        s <= first_sq(sq, code, s) <= 63,
        first_sq(sq, code, s) < 63 ==> sq[first_sq(sq, code, s)] == code,
        (exists|t: int| s <= t < 63 && sq[t] == code) ==> first_sq(sq, code, s) < 63,
    decreases 63 - s,
{
    if s < 63 {
        lemma_first_sq(sq, code, s + 1);
        if exists|t: int| s <= t < 63 && sq[t] == code {
            let t = choose|t: int| s <= t < 63 && sq[t] == code;
            if t > s {
                assert(exists|t: int| s + 1 <= t < 63 && sq[t] == code);
            }
        }
    }
}

/// Every piece of `pieces` stands on the board of `p`.
pub open spec fn all_present(pieces: Seq<u8>, p: Parsed) -> bool {
    forall|i: int| 0 <= i < pieces.len() ==> exists|s: int| 0 <= s < 63 && p.squares[s] == #[trigger] pieces[i]
}

/// Some square of `p` holds `c`.
pub open spec fn on_board(p: Parsed, c: u8) -> bool {
    exists|t: int| 0 <= t < 63 && p.squares[t] == c
}

/// Does every piece of `pieces` stand on the board of `p`?
pub fn all_present_exec(pieces: &[u8], p: &Parsed) -> (b: bool)
    ensures
        b == all_present(pieces@, *p),
{
    let mut i: usize = 0;
    while i < pieces.len()
        invariant
            0 <= i <= pieces@.len(),
            all_present(pieces@.take(i as int), *p),
        decreases pieces@.len() - i,
    {
        let c = pieces[i];
        let mut s: usize = 0;
        let mut found = false;
        while s < N
            invariant
                0 <= s <= 63,
                !found ==> forall|t: int| 0 <= t < s ==> p.squares[t] != c,
                found ==> on_board(*p, c),
            decreases 63 - s,
        {
            if p.squares[s] == c {
                found = true;
            }
            s += 1;
        }
        if !found {
            proof {
                assert(!on_board(*p, c));
                if all_present(pieces@, *p) {
                    assert(exists|t: int| 0 <= t < 63 && p.squares[t] == #[trigger] pieces@[i as int]);
                }
            }
            return false;
        }
        proof {
            let w = choose|t: int| 0 <= t < 63 && p.squares[t] == c;
            let nxt = pieces@.take(i + 1);
            assert forall|j: int| 0 <= j < nxt.len() implies exists|t: int| 0 <= t < 63 && p.squares[t] == #[trigger] nxt[j] by {
                if j < i {
                    assert(nxt[j] == pieces@.take(i as int)[j]);
                } else {
                    assert(p.squares[w] == nxt[j]);
                }
            }
        }
        i += 1;
    }
    assert(pieces@.take(i as int) =~= pieces@);
    true
}

pub(crate) proof fn lemma_tb_digits_bound(pieces: Seq<u8>, p: Parsed, i: int)
    requires
        0 <= i <= pieces.len(),
        all_present(pieces, p),
    ensures
        0 <= tb_digits(pieces, p.squares@, i) < pow63(i as nat),
    decreases i,
{
    if i > 0 {
        lemma_tb_digits_bound(pieces, p, i - 1);
        let c = pieces[i - 1];
        assert(exists|s: int| 0 <= s < 63 && p.squares[s] == pieces[i - 1]);
        lemma_first_sq(p.squares@, c, 0);
        let f = first_sq(p.squares@, c, 0);
        let w = pow63((i - 1) as nat);
        let d = tb_digits(pieces, p.squares@, i - 1);
        assert(d + f * w < 63 * w) by (nonlinear_arith)
            requires
                0 <= d < w,
                0 <= f <= 62,
        ;
    }
}

/// Table index of a position for the piece order `pieces`: the side to move, then the first
/// square holding each piece, as base-63 digits.
pub fn tb_index(pieces: &[u8], p: &Parsed) -> (r: usize)
    requires
        all_present(pieces@, *p),
        p.turn <= 1,
        table_size(pieces@.len() as nat) <= usize::MAX,
    ensures
        r == tb_index_spec(pieces@, *p),
        r < table_size(pieces@.len() as nat),
{
    let mut acc: usize = 0;
    let mut pw: usize = 1;
    let mut i: usize = 0;
    proof {
        lemma_pow63_mono(0, pieces@.len() as nat);
    }
    while i < pieces.len()
        invariant
            0 <= i <= pieces@.len(),
            all_present(pieces@, *p),
            table_size(pieces@.len() as nat) <= usize::MAX,
            pw == pow63(i as nat),
            acc == tb_digits(pieces@, p.squares@, i as int),
            acc < pw,
        decreases pieces@.len() - i,
    {
        let code = pieces[i];
        proof {
            lemma_first_sq(p.squares@, code, 0);
            assert(exists|s: int| 0 <= s < 63 && p.squares[s] == pieces@[i as int]);
        }
        let mut s: usize = 0;
        while s < N && p.squares[s] != code
            invariant
                0 <= s <= 63,
                first_sq(p.squares@, code, 0) == first_sq(p.squares@, code, s as int),
            decreases 63 - s,
        {
            s += 1;
        }
        assert(s == first_sq(p.squares@, code, 0));
        assert(s < 63);
        proof {
            lemma_tb_digits_bound(pieces@, *p, i + 1);
            lemma_pow63_mono((i + 1) as nat, pieces@.len() as nat);
        }
        acc = acc + s * pw;
        pw = pw * 63;
        i += 1;
    }
    acc * 2 + p.turn as usize
}

// ── Probing ─────────────────────────────────────────────────────────────────

/// Every table of the store has one entry per index of its set.
pub open spec fn store_sized(st: Map<Seq<u8>, Seq<u8>>) -> bool {
    forall|key: Seq<u8>| #[trigger] st.contains_key(key) ==> st[key].len() == table_size(key.len())
}

pub(crate) proof fn lemma_count_exists(sq: Seq<u8>, c: u8, k: int)
    requires
        0 <= k <= sq.len(),
        count_code(sq, c, k) >= 1,
    ensures
        exists|s: int| 0 <= s < k && sq[s] == c,
    decreases k,
{
    if k > 0 {
        if sq[k - 1] != c {
            lemma_count_exists(sq, c, k - 1);
        }
    }
}

proof fn lemma_material_upto_present(sq: Seq<u8>, c: int)
    requires
        0 <= c <= 255,
        sq.len() == 63,
    ensures
        forall|i: int|
            0 <= i < material_upto(sq, c).len() ==> 1 <= #[trigger] material_upto(sq, c)[i]
                && count_code(sq, material_upto(sq, c)[i], 63) >= 1,
    decreases c,
{
    if c > 0 {
        lemma_material_upto_present(sq, c - 1);
        let a = material_upto(sq, c - 1);
        let b = Seq::new(count_code(sq, c as u8, 63), |i: int| c as u8);
        assert(material_upto(sq, c) == a + b);
        assert forall|i: int| 0 <= i < material_upto(sq, c).len() implies 1 <= #[trigger] material_upto(sq, c)[i]
            && count_code(sq, material_upto(sq, c)[i], 63) >= 1 by {
            if i < a.len() {
                assert(material_upto(sq, c)[i] == a[i]);
            } else {
                assert(material_upto(sq, c)[i] == b[i - a.len()]);
            }
        }
    }
}

/// Each code of a position's material key stands on its board.
pub(crate) proof fn lemma_material_present(p: Parsed)
    ensures
        all_present(material_spec(p.squares@), p),
        forall|i: int| 0 <= i < material_spec(p.squares@).len() ==> 1 <= #[trigger] material_spec(p.squares@)[i],
{
    lemma_material_upto_present(p.squares@, 255);
    let m = material_spec(p.squares@);
    assert forall|i: int| 0 <= i < m.len() implies exists|s: int| 0 <= s < 63 && p.squares[s] == #[trigger] m[i] by {
        lemma_count_exists(p.squares@, m[i], 63);
    }
}

/// Table value of a position seen by its side to move: terminal positions by their status,
/// others from the table of their material set in `st` (None when it is missing).
pub open spec fn probe_spec(st: Map<Seq<u8>, Seq<u8>>, p: Parsed) -> Option<u8> {
    match status::status_spec(p) {
        Status::Win(c) => Some(if c == p.turn { TB_WIN } else { TB_LOSS }),
        Status::Draw => Some(TB_DRAW),
        Status::Playing => {
            let key = material_spec(p.squares@);
            if st.contains_key(key) {
                Some(st[key][tb_index_spec(key, p)])
            } else {
                None
            }
        },
    }
}

/// Table value (side to move's view) of a position: terminal status first, else the table of
/// its material set; None when the store has no table for that set.
pub fn probe_store(store: &Store, p: &Parsed) -> (r: Option<u8>)
    requires
        board::valid_position(*p),
        store_sized(store@),
    ensures
        r == probe_spec(store@, *p),
{
    match status_of(p) {
        Status::Win(c) => Some(
            if c == p.turn {
                TB_WIN
            } else {
                TB_LOSS
            },
        ),
        Status::Draw => Some(TB_DRAW),
        Status::Playing => {
            let key = material_key(p);
            proof {
                lemma_material_present(*p);
            }
            match store.get(key.as_slice()) {
                Some(t) => {
                    let n = t.len();
                    assert(table_size(key@.len() as nat) == n);
                    let i = tb_index(key.as_slice(), p);
                    Some(t[i])
                },
                None => None,
            }
        },
    }
}


// ── Material of a table board ───────────────────────────────────────────────

/// Codes 1..=c for which `h` holds, ascending.
pub open spec fn codes_where(h: spec_fn(int) -> bool, c: int) -> Seq<u8>
    decreases c,
{
    if c <= 0 {
        Seq::empty()
    } else if h(c) {
        codes_where(h, c - 1).push(c as u8)
    } else {
        codes_where(h, c - 1)
    }
}

/// Each code is smaller than the next.
pub open spec fn strictly_increasing(s: Seq<u8>) -> bool {
    forall|i: int, j: int| 0 <= i < j < s.len() ==> #[trigger] s[i] < #[trigger] s[j]
}

/// Piece codes 1..16, no code twice.
pub open spec fn distinct_codes(s: Seq<u8>) -> bool {
    &&& forall|i: int| 0 <= i < s.len() ==> 1 <= #[trigger] s[i] <= 16
    &&& forall|i: int, j: int| 0 <= i < s.len() && 0 <= j < s.len() && i != j ==> #[trigger] s[i] != #[trigger] s[j]
}

/// The codes on a board (each code 1..255 that occurs).
pub open spec fn present(sq: Seq<u8>) -> spec_fn(int) -> bool {
    |x: int| count_code(sq, x as u8, 63) >= 1
}

/// The codes of `pieces` but its `j`-th: the material left when that piece is captured.
pub open spec fn sub_key(pieces: Seq<u8>, j: int) -> Seq<u8> {
    codes_where(|x: int| pieces.contains(x as u8) && x != pieces[j], 16)
}

/// A code sequence with a red (1..8) and a black (9..16) code.
pub open spec fn both_colors(s: Seq<u8>) -> bool {
    &&& exists|i: int| 0 <= i < s.len() && 1 <= #[trigger] s[i] <= 8
    &&& exists|i: int| 0 <= i < s.len() && 9 <= #[trigger] s[i] <= 16
}

pub proof fn lemma_codes_where(h: spec_fn(int) -> bool, c: int)
    requires
        0 <= c <= 255,
    ensures
        strictly_increasing(codes_where(h, c)),
        forall|i: int| 0 <= i < codes_where(h, c).len() ==> 1 <= #[trigger] codes_where(h, c)[i] <= c,
        forall|x: int| 1 <= x <= c ==> (codes_where(h, c).contains(x as u8) <==> #[trigger] h(x)),
        forall|x: u8| #[trigger] codes_where(h, c).contains(x) ==> 1 <= x <= c && h(x as int),
    decreases c,
{
    if c > 0 {
        lemma_codes_where(h, c - 1);
        let s = codes_where(h, c - 1);
        if h(c) {
            let t = s.push(c as u8);
            assert forall|x: u8| #[trigger] t.contains(x) implies 1 <= x <= c && h(x as int) by {
                let i = choose|i: int| 0 <= i < t.len() && t[i] == x;
                if i < s.len() {
                    assert(s[i] == x);
                    assert(s.contains(x));
                }
            }
            assert forall|x: int| 1 <= x <= c implies (t.contains(x as u8) <==> #[trigger] h(x)) by {
                if x == c {
                    assert(t[s.len() as int] == c as u8);
                } else {
                    if s.contains(x as u8) {
                        let i = choose|i: int| 0 <= i < s.len() && s[i] == x as u8;
                        assert(t[i] == x as u8);
                    }
                    if t.contains(x as u8) {
                        let i = choose|i: int| 0 <= i < t.len() && t[i] == x as u8;
                        if i < s.len() {
                            assert(s[i] == x as u8);
                        }
                    }
                }
            }
        }
    }
}

proof fn lemma_codes_where_top(h: spec_fn(int) -> bool, lo: int, c: int)
    requires
        0 <= lo <= c,
        forall|x: int| lo < x <= c ==> !#[trigger] h(x),
    ensures
        codes_where(h, c) == codes_where(h, lo),
    decreases c,
{
    if c > lo {
        lemma_codes_where_top(h, lo, c - 1);
    }
}

proof fn lemma_codes_where_ext(h1: spec_fn(int) -> bool, h2: spec_fn(int) -> bool, c: int)
    requires
        forall|x: int| 1 <= x <= c ==> #[trigger] h1(x) == h2(x),
    ensures
        codes_where(h1, c) == codes_where(h2, c),
    decreases c,
{
    if c > 0 {
        lemma_codes_where_ext(h1, h2, c - 1);
    }
}

/// Occurrences of `x` after one square is overwritten.
pub proof fn lemma_count_update(sq: Seq<u8>, i: int, v: u8, x: u8, k: int)
    requires
        0 <= i < sq.len(),
        0 <= k <= sq.len(),
    ensures
        count_code(sq.update(i, v), x, k) + (if i < k && sq[i] == x {
            1int
        } else {
            0int
        }) == count_code(sq, x, k) + (if i < k && v == x {
            1int
        } else {
            0int
        }),
    decreases k,
{
    if k > 0 {
        lemma_count_update(sq, i, v, x, k - 1);
    }
}

/// With each code at most once, the material key lists the codes present, ascending.
proof fn lemma_material_upto_codes(sq: Seq<u8>, c: int)
    requires
        0 <= c <= 255,
        forall|x: u8| 1 <= x ==> #[trigger] count_code(sq, x, 63) <= 1,
    ensures
        material_upto(sq, c) == codes_where(present(sq), c),
    decreases c,
{
    if c > 0 {
        lemma_material_upto_codes(sq, c - 1);
        let n = count_code(sq, c as u8, 63);
        if n == 1 {
            assert(Seq::new(n, |i: int| c as u8) =~= seq![c as u8]);
            assert(material_upto(sq, c) == material_upto(sq, c - 1) + seq![c as u8]);
        } else {
            assert(Seq::new(n, |i: int| c as u8) =~= Seq::<u8>::empty());
            assert(material_upto(sq, c) == material_upto(sq, c - 1) + Seq::<u8>::empty());
        }
        assert(present(sq)(c) == (n >= 1));
    }
}

/// Squares of the first `n` pieces of index `idx` placed on an empty board.
pub open spec fn placed_seq(pieces: Seq<u8>, idx: int, n: int) -> Seq<u8> {
    Seq::new(63, |s: int| placed(pieces, idx, n, s))
}

proof fn lemma_placed_counts(pieces: Seq<u8>, idx: int, n: int)
    requires
        distinct_codes(pieces),
        tb_valid(pieces, idx),
        0 <= idx,
        0 <= n <= pieces.len(),
    ensures
        forall|x: u8| 1 <= x ==> #[trigger] count_code(placed_seq(pieces, idx, n), x, 63) == (if pieces.take(n).contains(x) {
            1nat
        } else {
            0nat
        }),
    decreases n,
{
    if n == 0 {
        assert forall|x: u8| 1 <= x implies #[trigger] count_code(placed_seq(pieces, idx, n), x, 63) == 0 by {
            lemma_count_absent(placed_seq(pieces, idx, n), x, 63);
        }
    } else {
        lemma_placed_counts(pieces, idx, n - 1);
        let prev = placed_seq(pieces, idx, n - 1);
        let t = tb_sq(idx, n - 1);
        assert(0 <= t < 63) by {
            lemma_pow63_pos((n - 1) as nat);
        }
        assert(placed_seq(pieces, idx, n) =~= prev.update(t, pieces[n - 1]));
        assert(tb_place_ok(pieces, idx, n - 1));
        lemma_placed_nonzero(pieces, idx, n - 1, t);
        assert(prev[t] == 0);
        assert forall|x: u8| 1 <= x implies #[trigger] count_code(placed_seq(pieces, idx, n), x, 63) == (if pieces.take(n).contains(x) {
            1nat
        } else {
            0nat
        }) by {
            lemma_count_update(prev, t, pieces[n - 1], x, 63);
            assert(pieces.take(n) == pieces.take(n - 1).push(pieces[n - 1]));
            if pieces.take(n).contains(x) {
                let i = choose|i: int| 0 <= i < n && #[trigger] pieces.take(n)[i] == x;
                if i < n - 1 {
                    assert(pieces.take(n - 1)[i] == x);
                }
            }
            if pieces.take(n - 1).contains(x) {
                let i = choose|i: int| 0 <= i < n - 1 && #[trigger] pieces.take(n - 1)[i] == x;
                assert(pieces.take(n)[i] == x);
                assert(pieces[i] != pieces[n - 1]);
            }
            if x == pieces[n - 1] {
                assert(pieces.take(n)[n - 1] == x);
            }
        }
    }
}

/// The board of a valid index holds each piece of a distinct-code set once and nothing else.
pub proof fn lemma_tb_board_counts(pieces: Seq<u8>, idx: int, sq: Seq<u8>)
    requires
        distinct_codes(pieces),
        tb_valid(pieces, idx),
        0 <= idx,
        sq == placed_seq(pieces, idx, pieces.len() as int),
    ensures
        forall|x: u8| 1 <= x ==> #[trigger] count_code(sq, x, 63) == (if pieces.contains(x) {
            1nat
        } else {
            0nat
        }),
{
    lemma_placed_counts(pieces, idx, pieces.len() as int);
    assert(pieces.take(pieces.len() as int) =~= pieces);
}

/// Occurrences of each nonzero code after a move from `f` to `t`: the piece that stood on `t`
/// (if any) is gone, everything else is kept.
pub proof fn lemma_move_counts(sq: Seq<u8>, f: int, t: int, x: u8)
    requires
        sq.len() == 63,
        0 <= f < 63,
        0 <= t < 63,
        f != t,
        1 <= x,
    ensures
        count_code(board::moved_squares(sq, f, t), x, 63) + (if sq[t] == x {
            1int
        } else {
            0int
        }) == count_code(sq, x, 63),
{
    let s1 = sq.update(f, 0);
    lemma_count_update(sq, f, 0, x, 63);
    lemma_count_update(s1, t, sq[f], x, 63);
}

/// A board holding each code of a distinct-code set once: its material key is the set's codes
/// ascending, as long as the set.
pub proof fn lemma_key_of_set(pieces: Seq<u8>, sq: Seq<u8>)
    requires
        distinct_codes(pieces),
        sq.len() == 63,
        forall|x: u8| 1 <= x ==> #[trigger] count_code(sq, x, 63) == (if pieces.contains(x) {
            1nat
        } else {
            0nat
        }),
    ensures
        material_spec(sq) == codes_where(|x: int| pieces.contains(x as u8), 16),
        material_spec(sq).len() == pieces.len(),
        strictly_increasing(material_spec(sq)),
{
    let h = |x: int| pieces.contains(x as u8);
    lemma_material_upto_codes(sq, 255);
    assert forall|x: int| 1 <= x <= 255 implies #[trigger] present(sq)(x) == h(x) by {
        assert(count_code(sq, x as u8, 63) == (if pieces.contains(x as u8) {
            1nat
        } else {
            0nat
        }));
    }
    lemma_codes_where_ext(present(sq), h, 255);
    assert forall|x: int| 16 < x <= 255 implies !#[trigger] h(x) by {
        if pieces.contains(x as u8) {
            let i = choose|i: int| 0 <= i < pieces.len() && pieces[i] == x as u8;
        }
    }
    lemma_codes_where_top(h, 16, 255);
    let m = codes_where(h, 16);
    lemma_codes_where(h, 16);
    lemma_codes_where(h, 255);
    assert(m.to_set() =~= pieces.to_set()) by {
        broadcast use vstd::set::group_set_axioms;
        assert forall|x: u8| #[trigger] m.to_set().contains(x) <==> pieces.to_set().contains(x) by {
            if pieces.contains(x) {
                let i = choose|i: int| 0 <= i < pieces.len() && pieces[i] == x;
                assert(1 <= x <= 16);
                assert(h(x as int));
                assert(m.contains(x));
            }
            if m.contains(x) {
                assert(h(x as int));
            }
        }
    }
    assert(m.no_duplicates());
    assert(pieces.no_duplicates());
    m.unique_seq_to_set();
    pieces.unique_seq_to_set();
}

/// Removing the `j`-th code: the remaining codes ascending, one fewer.
pub proof fn lemma_sub_key(pieces: Seq<u8>, j: int)
    requires
        distinct_codes(pieces),
        0 <= j < pieces.len(),
    ensures
        sub_key(pieces, j).len() + 1 == pieces.len(),
        strictly_increasing(sub_key(pieces, j)),
        forall|x: u8| #[trigger] sub_key(pieces, j).contains(x) <==> (pieces.contains(x) && x != pieces[j]),
{
    let h = |x: int| pieces.contains(x as u8) && x != pieces[j];
    let m = sub_key(pieces, j);
    lemma_codes_where(h, 16);
    assert forall|x: u8| #[trigger] m.contains(x) <==> (pieces.contains(x) && x != pieces[j]) by {
        if pieces.contains(x) {
            let i = choose|i: int| 0 <= i < pieces.len() && pieces[i] == x;
            assert(1 <= x <= 16);
            if x != pieces[j] {
                assert(h(x as int));
            }
        }
    }
    assert(m.to_set() =~= pieces.to_set().remove(pieces[j])) by {
        broadcast use vstd::set::group_set_axioms;
    }
    assert(pieces.to_set().contains(pieces[j]));
    m.unique_seq_to_set();
    pieces.unique_seq_to_set();
    vstd::seq_lib::seq_to_set_is_finite(pieces);
    vstd::set::axiom_set_remove_len(pieces.to_set(), pieces[j]);
}

/// Material after a legal move from a board holding each code of a distinct-code set once: a
/// quiet move keeps the set (every piece still on the board); a capture of the `j`-th piece
/// leaves `sub_key(pieces, j)`.
pub proof fn lemma_child_key(pieces: Seq<u8>, sq: Seq<u8>, f: int, t: int, c: Parsed) -> (j: int)
    requires
        distinct_codes(pieces),
        sq.len() == 63,
        forall|x: u8| 1 <= x ==> #[trigger] count_code(sq, x, 63) == (if pieces.contains(x) {
            1nat
        } else {
            0nat
        }),
        0 <= f < 63,
        0 <= t < 63,
        f != t,
        c.squares@ == board::moved_squares(sq, f, t),
    ensures
        sq[t] == 0 ==> material_spec(c.squares@) == material_spec(sq) && material_spec(c.squares@).len()
            == pieces.len() && all_present(pieces, c),
        sq[t] != 0 ==> 0 <= j < pieces.len() && pieces[j] == sq[t] && material_spec(c.squares@) == sub_key(pieces, j)
            && material_spec(c.squares@).len() + 1 == pieces.len(),
{
    let cs = c.squares@;
    if sq[t] == 0 {
        assert forall|x: u8| 1 <= x implies #[trigger] count_code(cs, x, 63) == (if pieces.contains(x) {
            1nat
        } else {
            0nat
        }) by {
            lemma_move_counts(sq, f, t, x);
        }
        lemma_key_of_set(pieces, sq);
        lemma_key_of_set(pieces, cs);
        assert forall|i: int| 0 <= i < pieces.len() implies exists|s: int| 0 <= s < 63 && c.squares[s] == #[trigger] pieces[i] by {
            assert(pieces.contains(pieces[i]));
            assert(count_code(cs, pieces[i], 63) >= 1);
            lemma_count_exists(cs, pieces[i], 63);
        }
        0
    } else {
        let x0 = sq[t];
        assert(count_code(sq, x0, 63) >= 1) by {
            lemma_piece_in_count(sq, t, 63);
        }
        assert(pieces.contains(x0));
        let j = choose|j: int| 0 <= j < pieces.len() && pieces[j] == x0;
        let h = |x: int| pieces.contains(x as u8) && x != pieces[j];
        assert forall|x: u8| 1 <= x implies #[trigger] count_code(cs, x, 63) == (if pieces.contains(x) && x != x0 {
            1nat
        } else {
            0nat
        }) by {
            lemma_move_counts(sq, f, t, x);
        }
        lemma_material_upto_codes(cs, 255);
        assert forall|x: int| 1 <= x <= 255 implies #[trigger] present(cs)(x) == h(x) by {
            assert(count_code(cs, x as u8, 63) == (if pieces.contains(x as u8) && x as u8 != x0 {
                1nat
            } else {
                0nat
            }));
        }
        lemma_codes_where_ext(present(cs), h, 255);
        assert forall|x: int| 16 < x <= 255 implies !#[trigger] h(x) by {
            if pieces.contains(x as u8) {
                let i = choose|i: int| 0 <= i < pieces.len() && pieces[i] == x as u8;
            }
        }
        lemma_codes_where_top(h, 16, 255);
        lemma_sub_key(pieces, j);
        j
    }
}

proof fn lemma_count_absent(sq: Seq<u8>, x: u8, k: int)
    requires
        0 <= k <= sq.len(),
        forall|i: int| 0 <= i < k ==> #[trigger] sq[i] != x,
    ensures
        count_code(sq, x, k) == 0,
    decreases k,
{
    if k > 0 {
        lemma_count_absent(sq, x, k - 1);
    }
}

pub(crate) proof fn lemma_piece_in_count(sq: Seq<u8>, t: int, k: int)
    requires
        0 <= t < k <= sq.len(),
    ensures
        count_code(sq, sq[t], k) >= 1,
    decreases k,
{
    if k - 1 > t {
        lemma_piece_in_count(sq, t, k - 1);
    }
}

// ── Index round trip ────────────────────────────────────────────────────────

/// Each piece on the board stands where a table placement allows: a non-rat never in water, no
/// piece on its own den.
pub open spec fn placement_ok(sq: Seq<u8>) -> bool {
    forall|s: int|
        0 <= s < 63 && #[trigger] sq[s] != 0 ==> (is_water(s as u8) ==> role_of(sq[s]) == 1) && s != own_den_of(sq[s])
}

proof fn lemma_pow63_add(a: nat, b: nat)
    ensures
        pow63(a + b) == pow63(a) * pow63(b),
    decreases b,
{
    if b > 0 {
        lemma_pow63_add(a, (b - 1) as nat);
        let x = pow63(a) as int;
        let y = pow63((b - 1) as nat) as int;
        assert(pow63(a + b) == 63 * pow63((a + b - 1) as nat));
        assert(pow63((a + b - 1) as nat) == x * y);
        assert(pow63(b) == 63 * y);
        assert(63 * (x * y) == x * (63 * y)) by (nonlinear_arith);
    } else {
        assert(pow63(b) == 1);
        assert(a + b == a);
    }
}

proof fn lemma_digits_bound(pieces: Seq<u8>, sq: Seq<u8>, k: int)
    requires
        0 <= k <= pieces.len(),
        forall|j: int| 0 <= j < k ==> 0 <= #[trigger] first_sq(sq, pieces[j], 0) < 63,
    ensures
        0 <= tb_digits(pieces, sq, k) < pow63(k as nat),
    decreases k,
{
    if k > 0 {
        lemma_digits_bound(pieces, sq, k - 1);
        let f = first_sq(sq, pieces[k - 1], 0);
        let w = pow63((k - 1) as nat);
        let d = tb_digits(pieces, sq, k - 1);
        assert(d + f * w < 63 * w) by (nonlinear_arith)
            requires
                0 <= d < w,
                0 <= f <= 62,
        ;
        assert(0 <= f * w) by (nonlinear_arith)
            requires
                0 <= f,
                0 <= w,
        ;
    }
}

/// The base-63 digits of the index number are the pieces' squares.
proof fn lemma_digits_decode(pieces: Seq<u8>, sq: Seq<u8>, k: int, i: int)
    requires
        0 <= i < k <= pieces.len(),
        forall|j: int| 0 <= j < k ==> 0 <= #[trigger] first_sq(sq, pieces[j], 0) < 63,
    ensures
        (tb_digits(pieces, sq, k) / (pow63(i as nat) as int)) % 63 == first_sq(sq, pieces[i], 0),
    decreases k,
{
    let n1 = tb_digits(pieces, sq, k - 1);
    let f = first_sq(sq, pieces[k - 1], 0);
    let w = pow63((k - 1) as nat) as int;
    let n = tb_digits(pieces, sq, k);
    assert(n == n1 + f * w);
    lemma_digits_bound(pieces, sq, k - 1);
    lemma_pow63_pos(i as nat);
    if i == k - 1 {
        vstd::arithmetic::div_mod::lemma_fundamental_div_mod_converse(n, w, f, n1);
        vstd::arithmetic::div_mod::lemma_small_mod(f as nat, 63);
    } else {
        lemma_digits_decode(pieces, sq, k - 1, i);
        let pi = pow63(i as nat) as int;
        let q = pow63((k - 1 - i) as nat) as int;
        lemma_pow63_add(i as nat, (k - 1 - i) as nat);
        assert(w == pi * q);
        let q1 = pow63((k - 2 - i) as nat) as int;
        assert(q == 63 * q1);
        vstd::arithmetic::div_mod::lemma_hoist_over_denominator(n1, f * q, pi as nat);
        assert(n1 + (f * q) * pi == n) by {
            vstd::arithmetic::mul::lemma_mul_is_associative(f as int, q, pi);
            vstd::arithmetic::mul::lemma_mul_is_commutative(q, pi);
        }
        assert(n / pi == n1 / pi + f * q);
        assert(f * q == 63 * (f * q1)) by {
            vstd::arithmetic::mul::lemma_mul_is_associative(f as int, 63, q1);
            vstd::arithmetic::mul::lemma_mul_is_commutative(f as int, 63);
            vstd::arithmetic::mul::lemma_mul_is_associative(63, f as int, q1);
        }
        vstd::arithmetic::div_mod::lemma_mod_multiples_vanish(f * q1, n1 / pi, 63);
    }
}

proof fn lemma_count_unique(sq: Seq<u8>, x: u8, s: int, t: int, k: int)
    requires
        0 <= s < t < k <= sq.len(),
        sq[s] == x,
        sq[t] == x,
    ensures
        count_code(sq, x, k) >= 2,
    decreases k,
{
    if k - 1 > t {
        lemma_count_unique(sq, x, s, t, k - 1);
    } else {
        lemma_piece_in_count(sq, s, k - 1);
    }
}

proof fn lemma_placed_is(pieces: Seq<u8>, idx: int, n: int, sq: Seq<u8>)
    requires
        0 <= n <= pieces.len(),
        forall|i: int| 0 <= i < n ==> #[trigger] tb_sq(idx, i) == first_sq(sq, pieces[i], 0),
        forall|i: int| 0 <= i < n ==> sq[first_sq(sq, #[trigger] pieces[i], 0)] == pieces[i],
    ensures
        forall|s: int| #[trigger] placed(pieces, idx, n, s) == (if exists|i: int| 0 <= i < n && first_sq(sq, #[trigger] pieces[i], 0) == s {
            sq[s]
        } else {
            0
        }),
    decreases n,
{
    if n > 0 {
        lemma_placed_is(pieces, idx, n - 1, sq);
        assert forall|s: int| #[trigger] placed(pieces, idx, n, s) == (if exists|i: int| 0 <= i < n && first_sq(sq, #[trigger] pieces[i], 0) == s {
            sq[s]
        } else {
            0
        }) by {
            let last = pieces[n - 1];
            assert(tb_sq(idx, n - 1) == first_sq(sq, last, 0));
            assert(sq[first_sq(sq, last, 0)] == last);
            if first_sq(sq, last, 0) == s {
                assert(placed(pieces, idx, n, s) == last);
                assert(0 <= n - 1 < n && first_sq(sq, pieces[n - 1], 0) == s);
            } else {
                assert(placed(pieces, idx, n, s) == placed(pieces, idx, n - 1, s));
                if exists|i: int| 0 <= i < n - 1 && first_sq(sq, #[trigger] pieces[i], 0) == s {
                    let i = choose|i: int| 0 <= i < n - 1 && first_sq(sq, #[trigger] pieces[i], 0) == s;
                    assert(0 <= i < n && first_sq(sq, pieces[i], 0) == s);
                }
                if exists|i: int| 0 <= i < n && first_sq(sq, #[trigger] pieces[i], 0) == s {
                    let i = choose|i: int| 0 <= i < n && first_sq(sq, #[trigger] pieces[i], 0) == s;
                    assert(i != n - 1);
                    assert(0 <= i < n - 1 && first_sq(sq, pieces[i], 0) == s);
                }
            }
        }
    }
}

/// A position holding each piece of a distinct-code set once, each where a table placement
/// allows: its table index decodes back to its board and side to move.
pub proof fn lemma_index_roundtrip(pieces: Seq<u8>, c: Parsed)
    requires
        distinct_codes(pieces),
        c.turn <= 1,
        forall|x: u8| 1 <= x ==> #[trigger] count_code(c.squares@, x, 63) == (if pieces.contains(x) {
            1nat
        } else {
            0nat
        }),
        placement_ok(c.squares@),
    ensures
        0 <= tb_index_spec(pieces, c),
        tb_valid(pieces, tb_index_spec(pieces, c)),
        placed_seq(pieces, tb_index_spec(pieces, c), pieces.len() as int) == c.squares@,
        tb_index_spec(pieces, c) % 2 == c.turn,
{
    let sq = c.squares@;
    let k = pieces.len() as int;
    let ci = tb_index_spec(pieces, c);
    let n = tb_digits(pieces, sq, k);
    assert forall|j: int| 0 <= j < k implies 0 <= #[trigger] first_sq(sq, pieces[j], 0) < 63 && sq[first_sq(sq, pieces[j], 0)] == pieces[j] by {
        assert(pieces.contains(pieces[j]));
        assert(count_code(sq, pieces[j], 63) >= 1);
        lemma_count_exists(sq, pieces[j], 63);
        lemma_first_sq(sq, pieces[j], 0);
    }
    lemma_digits_bound(pieces, sq, k);
    vstd::arithmetic::div_mod::lemma_fundamental_div_mod_converse(ci, 2, n, c.turn as int);
    assert forall|i: int| 0 <= i < k implies #[trigger] tb_sq(ci, i) == first_sq(sq, pieces[i], 0) by {
        lemma_digits_decode(pieces, sq, k, i);
    }
    lemma_placed_is(pieces, ci, k, sq);
    assert forall|s: int| 0 <= s < 63 implies #[trigger] placed_seq(pieces, ci, k)[s] == sq[s] by {
        assert(placed_seq(pieces, ci, k)[s] == placed(pieces, ci, k, s));
        if sq[s] != 0 {
            let x = sq[s];
            lemma_piece_in_count(sq, s, 63);
            assert(pieces.contains(x));
            let i = choose|i: int| 0 <= i < k && pieces[i] == x;
            let f = first_sq(sq, pieces[i], 0);
            assert(sq[f] == x);
            if f != s {
                if f < s {
                    lemma_count_unique(sq, x, f, s, 63);
                } else {
                    lemma_count_unique(sq, x, s, f, 63);
                }
            }
            assert(0 <= i < k && first_sq(sq, pieces[i], 0) == s);
        } else {
            if exists|i: int| 0 <= i < k && first_sq(sq, #[trigger] pieces[i], 0) == s {
                let i = choose|i: int| 0 <= i < k && first_sq(sq, #[trigger] pieces[i], 0) == s;
                assert(sq[s] == pieces[i]);
            }
        }
    }
    assert(placed_seq(pieces, ci, k) =~= sq);
    assert forall|i: int| 0 <= i < k implies #[trigger] tb_place_ok(pieces, ci, i) by {
        let s = tb_sq(ci, i);
        assert(sq[s] == pieces[i]);
        assert forall|j: int| 0 <= j < i implies #[trigger] tb_sq(ci, j) != s by {
            assert(tb_sq(ci, j) == first_sq(sq, pieces[j], 0));
            assert(sq[tb_sq(ci, j)] == pieces[j]);
        }
    }
}

proof fn lemma_first_sq_min(sq: Seq<u8>, code: u8, s: int, t: int)
    requires
        0 <= s <= t < 63,
        sq.len() == 63,
        sq[t] == code,
    ensures
        first_sq(sq, code, s) <= t,
    decreases 63 - s,
{
    if sq[s] != code {
        lemma_first_sq_min(sq, code, s + 1, t);
    }
}

proof fn lemma_placed_at(pieces: Seq<u8>, idx: int, n: int, j: int)
    requires
        0 <= j < n <= pieces.len(),
        tb_valid(pieces, idx),
    ensures
        placed(pieces, idx, n, tb_sq(idx, j)) == pieces[j],
    decreases n,
{
    if n - 1 > j {
        assert(tb_place_ok(pieces, idx, n - 1));
        lemma_placed_at(pieces, idx, n - 1, j);
    }
}

proof fn lemma_digits_mod(pieces: Seq<u8>, sq: Seq<u8>, idx: int, k: int)
    requires
        0 <= k <= pieces.len(),
        0 <= idx,
        forall|j: int| 0 <= j < k ==> #[trigger] first_sq(sq, pieces[j], 0) == tb_sq(idx, j),
    ensures
        tb_digits(pieces, sq, k) == (idx / 2) % (pow63(k as nat) as int),
    decreases k,
{
    let n = idx / 2;
    if k == 0 {
        assert(n % 1 == 0);
    } else {
        lemma_digits_mod(pieces, sq, idx, k - 1);
        let w = pow63((k - 1) as nat) as int;
        lemma_pow63_pos((k - 1) as nat);
        vstd::arithmetic::div_mod::lemma_breakdown(n, w, 63);
        assert(tb_sq(idx, k - 1) == (n / w) % 63);
        assert(pow63(k as nat) == 63 * pow63((k - 1) as nat));
        assert(w * 63 == pow63(k as nat) as int);
        vstd::arithmetic::mul::lemma_mul_is_commutative(w, (n / w) % 63);
    }
}

/// The index of the board of a valid index is that index.
pub proof fn lemma_index_of_board(pieces: Seq<u8>, idx: int, q: Parsed)
    requires
        distinct_codes(pieces),
        0 <= idx < table_size(pieces.len()),
        tb_valid(pieces, idx),
        q.squares@ == placed_seq(pieces, idx, pieces.len() as int),
        q.turn == idx % 2,
    ensures
        tb_index_spec(pieces, q) == idx,
{
    let k = pieces.len() as int;
    let sq = q.squares@;
    lemma_tb_board_counts(pieces, idx, sq);
    assert forall|j: int| 0 <= j < k implies #[trigger] first_sq(sq, pieces[j], 0) == tb_sq(idx, j) by {
        let s = tb_sq(idx, j);
        lemma_pow63_pos(j as nat);
        lemma_placed_at(pieces, idx, k, j);
        assert(sq[s] == placed(pieces, idx, k, s));
        lemma_first_sq_min(sq, pieces[j], 0, s);
        lemma_first_sq(sq, pieces[j], 0);
        let f = first_sq(sq, pieces[j], 0);
        if f < s {
            lemma_count_unique(sq, pieces[j], f, s, 63);
            assert(pieces.contains(pieces[j]));
        }
    }
    lemma_digits_mod(pieces, sq, idx, k);
    let n = idx / 2;
    vstd::arithmetic::div_mod::lemma_small_mod(n as nat, pow63(k as nat));
}

/// The board of a valid index respects the placement rules.
pub proof fn lemma_tb_board_placement(pieces: Seq<u8>, idx: int, n: int)
    requires
        tb_valid(pieces, idx),
        0 <= idx,
        0 <= n <= pieces.len(),
        forall|j: int| 0 <= j < pieces.len() ==> #[trigger] pieces[j] != 0,
    ensures
        placement_ok(placed_seq(pieces, idx, n)),
    decreases n,
{
    if n > 0 {
        lemma_tb_board_placement(pieces, idx, n - 1);
        let sq = placed_seq(pieces, idx, n);
        let prev = placed_seq(pieces, idx, n - 1);
        assert(tb_place_ok(pieces, idx, n - 1));
        assert forall|s: int| 0 <= s < 63 && #[trigger] sq[s] != 0 implies (is_water(s as u8) ==> role_of(sq[s]) == 1) && s
            != own_den_of(sq[s]) by {
            if tb_sq(idx, n - 1) != s {
                assert(sq[s] == prev[s]);
            }
        }
    }
}

/// A move of the piece on `f` to `t`, where the piece may stand, keeps the placement rules.
pub proof fn lemma_placement_move(sq: Seq<u8>, f: int, t: int)
    requires
        sq.len() == 63,
        placement_ok(sq),
        0 <= f < 63,
        0 <= t < 63,
        f != t,
        sq[f] != 0,
        sq[f] <= 16,
        t != own_den_of(sq[f]),
        is_water(t as u8) ==> role_of(sq[f]) == 1,
    ensures
        placement_ok(board::moved_squares(sq, f, t)),
{
    let m = board::moved_squares(sq, f, t);
    assert forall|s: int| 0 <= s < 63 && #[trigger] m[s] != 0 implies (is_water(s as u8) ==> role_of(m[s]) == 1) && s
        != own_den_of(m[s]) by {
        if s != t {
            assert(m[s] == sq[s]);
        }
    }
}

} // verus!
