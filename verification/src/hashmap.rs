//! The hash table engine: a fixed-size slot array with linear probing,
//! grown by doubling before it can fill up.
//!
//! The slot array is the data model: a sequence of optional (key, value)
//! pairs. Every operation probes forward from the key's hash, wrapping
//! modulo the capacity, until it meets an empty slot or a matching key.
//! The table's view is the map that such probing observes. Deletion
//! simply empties the slot, with no chain repair: a key displaced past a
//! later-emptied slot can become unobservable, which the contracts state
//! faithfully at the slot level.

use vstd::prelude::*;

verus! {

use crate::key::MapKey;
use vstd::arithmetic::div_mod::{
    lemma_fundamental_div_mod, lemma_mod_add_multiples_vanish, lemma_add_mod_noop,
    lemma_small_mod, lemma_mod_multiples_vanish,
};
use vstd::arithmetic::power2::{pow2, lemma_pow2_pos, lemma_pow2_unfold, lemma2_to64};
use vstd::pervasive::unreached;

/// Number of slots a fresh table allocates.
pub const DEFAULT_CAPACITY: usize = 20;

/// The load-factor threshold, as the exact fraction
/// `LOAD_FACTOR_NUMER / LOAD_FACTOR_DENOM`: an insert grows the table
/// when the occupied fraction would pass it.
pub const LOAD_FACTOR_NUMER: usize = 7;

/// See `LOAD_FACTOR_NUMER`.
pub const LOAD_FACTOR_DENOM: usize = 10;

/// Is this slot occupied by a pair whose key has logical value `kv`?
pub open spec fn slot_matches<K: MapKey, V>(slot: Option<(K, V)>, kv: K::V) -> bool {
    slot is Some && slot.unwrap().0@ == kv
}

/// Does probing for `kv` stop at this slot (empty, or key found)?
pub open spec fn probe_stops<K: MapKey, V>(slot: Option<(K, V)>, kv: K::V) -> bool {
    slot is None || slot_matches(slot, kv)
}

/// The slot where probing for a key of logical value `kv` begins.
pub open spec fn start_index<K: MapKey>(kv: K::V, cap: int) -> int {
    (K::hash_spec(kv) as int) % cap
}

/// The slot reached after `j` probe steps from `start`, wrapping.
pub open spec fn probe_index(start: int, j: int, cap: int) -> int {
    (start + j) % cap
}

/// Number of probe steps, counting from step `j`, until probing for `kv`
/// stops; `s.len()` if it never stops.
pub open spec fn probe_steps_from<K: MapKey, V>(s: Seq<Option<(K, V)>>, kv: K::V, j: nat) -> nat
    decreases s.len() - j,
{
    if j >= s.len() {
        s.len()
    } else if probe_stops(s[probe_index(start_index::<K>(kv, s.len() as int), j as int, s.len() as int)], kv) {
        j
    } else {
        probe_steps_from(s, kv, j + 1)
    }
}

/// Number of probe steps until probing for `kv` stops.
pub open spec fn probe_steps<K: MapKey, V>(s: Seq<Option<(K, V)>>, kv: K::V) -> nat {
    probe_steps_from(s, kv, 0)
}

/// The slot at which probing for `kv` stops.
pub open spec fn stop_index<K: MapKey, V>(s: Seq<Option<(K, V)>>, kv: K::V) -> int {
    probe_index(start_index::<K>(kv, s.len() as int), probe_steps(s, kv) as int, s.len() as int)
}

/// Does probing observe a pair with key `kv`?
pub open spec fn spec_found<K: MapKey, V>(s: Seq<Option<(K, V)>>, kv: K::V) -> bool {
    probe_steps(s, kv) < s.len() && slot_matches(s[stop_index(s, kv)], kv)
}

/// The value probing observes for `kv`.
pub open spec fn spec_value<K: MapKey, V>(s: Seq<Option<(K, V)>>, kv: K::V) -> V {
    s[stop_index(s, kv)].unwrap().1
}

/// The map that probing observes over the slot array.
pub open spec fn table_map<K: MapKey, V>(s: Seq<Option<(K, V)>>) -> Map<K::V, V> {
    Map::new(|kv: K::V| spec_found(s, kv), |kv: K::V| spec_value(s, kv))
}

/// How many slots are occupied.
pub open spec fn occupied_count<K: MapKey, V>(s: Seq<Option<(K, V)>>) -> nat
    decreases s.len(),
{
    if s.len() == 0 {
        0
    } else {
        occupied_count(s.drop_last()) + (if s.last() is Some { 1nat } else { 0nat })
    }
}

/// Number of probe steps, counting from step `j`, until probing for `kv`
/// meets an empty slot, irrespective of keys; `s.len()` if none.
pub open spec fn free_steps_from<K: MapKey, V>(s: Seq<Option<(K, V)>>, kv: K::V, j: nat) -> nat
    decreases s.len() - j,
{
    if j >= s.len() {
        s.len()
    } else if s[probe_index(start_index::<K>(kv, s.len() as int), j as int, s.len() as int)] is None {
        j
    } else {
        free_steps_from(s, kv, j + 1)
    }
}

/// Number of probe steps until the first empty slot on `kv`'s chain.
pub open spec fn free_steps<K: MapKey, V>(s: Seq<Option<(K, V)>>, kv: K::V) -> nat {
    free_steps_from(s, kv, 0)
}

/// The first empty slot on `kv`'s probe chain.
pub open spec fn free_index<K: MapKey, V>(s: Seq<Option<(K, V)>>, kv: K::V) -> int {
    probe_index(start_index::<K>(kv, s.len() as int), free_steps(s, kv) as int, s.len() as int)
}

/// Rehashing places a pair at the first empty slot of its probe chain,
/// with no key comparison.
pub open spec fn place_free<K: MapKey, V>(s: Seq<Option<(K, V)>>, pair: (K, V)) -> Seq<Option<(K, V)>> {
    if free_steps(s, pair.0@) < s.len() {
        s.update(free_index(s, pair.0@), Some(pair))
    } else {
        s
    }
}

/// Rehashes the pairs of `old_s` from index `i` on into `acc`, in array
/// order.
pub open spec fn rehash_into<K: MapKey, V>(
    old_s: Seq<Option<(K, V)>>,
    acc: Seq<Option<(K, V)>>,
    i: int,
) -> Seq<Option<(K, V)>>
    decreases old_s.len() - i,
{
    if i < 0 || i >= old_s.len() {
        acc
    } else {
        let acc2 = if old_s[i] is Some {
            place_free(acc, old_s[i].unwrap())
        } else {
            acc
        };
        rehash_into(old_s, acc2, i + 1)
    }
}

/// The slot array after growth: twice as many slots, every pair of `s`
/// rehashed into them in array order.
pub open spec fn grown_slots<K: MapKey, V>(s: Seq<Option<(K, V)>>) -> Seq<Option<(K, V)>> {
    rehash_into(s, Seq::new(2 * s.len(), |j: int| None::<(K, V)>), 0)
}

/// No two occupied slots hold keys of equal logical value.
pub open spec fn distinct_keys<K: MapKey, V>(s: Seq<Option<(K, V)>>) -> bool {
    forall |i: int, j: int|
        0 <= i < s.len() && 0 <= j < s.len() && i != j && #[trigger] s[i] is Some && #[trigger] s[j] is Some
            ==> s[i].unwrap().0@ != s[j].unwrap().0@
}

/// The probe chain from the key's start slot up to the slot that holds
/// it has no hole.
pub open spec fn chain_ok_at<K: MapKey, V>(s: Seq<Option<(K, V)>>, i: int) -> bool {
    s[i] is Some ==> {
        let st = start_index::<K>(s[i].unwrap().0@, s.len() as int);
        let d = (i - st) % (s.len() as int);
        forall |j: int| 0 <= j < d ==> #[trigger] s[probe_index(st, j, s.len() as int)] is Some
    }
}

/// Every occupied slot is reachable by probing for its own key.
pub open spec fn chains_ok<K: MapKey, V>(s: Seq<Option<(K, V)>>) -> bool {
    forall |i: int| 0 <= i < s.len() ==> #[trigger] chain_ok_at(s, i)
}

/// Does any occupied slot hold a key of logical value `kv`?
pub open spec fn has_key<K: MapKey, V>(s: Seq<Option<(K, V)>>, kv: K::V) -> bool {
    exists |i: int| 0 <= i < s.len() && slot_matches(#[trigger] s[i], kv)
}

pub struct HashMap<K: MapKey, V> {
    /// The slot array; its length is the capacity.
    pub elements: Vec<Option<(K, V)>>,
    /// Count of occupied slots.
    pub size: usize,
    /// Length of the slot array; always positive.
    pub capacity: usize,
}

impl<K: MapKey, V> View for HashMap<K, V> {
    type V = Map<K::V, V>;

    /// The table denotes the map that probing observes.
    open spec fn view(&self) -> Map<K::V, V> {
        table_map(self.elements@)
    }
}

impl<K: MapKey, V> HashMap<K, V> {
    /// The structural invariant: capacity matches the slot array and is
    /// a doubling of the default, size counts the occupied slots, and
    /// the load factor threshold holds, so an empty slot always exists.
    pub open spec fn inv(&self) -> bool {
        &&& self.capacity == self.elements@.len()
        &&& self.capacity >= DEFAULT_CAPACITY
        &&& (exists |d: nat| self.capacity == DEFAULT_CAPACITY * #[trigger] pow2(d))
        &&& self.size == occupied_count(self.elements@)
        &&& LOAD_FACTOR_DENOM * self.size <= LOAD_FACTOR_NUMER * self.capacity
    }

    /// Well-formedness beyond the structural invariant: keys are unique
    /// and probe chains are unbroken. Construction, insertion and growth
    /// preserve it; removal may break the chains of displaced keys.
    pub open spec fn wf(&self) -> bool {
        &&& distinct_keys(self.elements@)
        &&& chains_ok(self.elements@)
    }

    /// Would one more entry push the occupied fraction strictly past
    /// the load factor threshold?
    pub open spec fn growth_pending(&self) -> bool {
        LOAD_FACTOR_DENOM * (self.size + 1) > LOAD_FACTOR_NUMER * self.capacity
    }
}

// ---------------------------------------------------------------------
// Counting lemmas
// ---------------------------------------------------------------------

proof fn lemma_count_le_len<K: MapKey, V>(s: Seq<Option<(K, V)>>)
    ensures
        occupied_count(s) <= s.len(),
    decreases s.len(),
{
    if s.len() > 0 {
        lemma_count_le_len(s.drop_last());
    }
}

proof fn lemma_count_all_empty<K: MapKey, V>(s: Seq<Option<(K, V)>>)
    requires
        forall |i: int| 0 <= i < s.len() ==> #[trigger] s[i] is None,
    ensures
        occupied_count(s) == 0,
    decreases s.len(),
{
    if s.len() > 0 {
        lemma_count_all_empty(s.drop_last());
    }
}

proof fn lemma_count_update<K: MapKey, V>(s: Seq<Option<(K, V)>>, i: int, x: Option<(K, V)>)
    requires
        0 <= i < s.len(),
    ensures
        occupied_count(s.update(i, x)) == occupied_count(s)
            - (if s[i] is Some { 1int } else { 0int })
            + (if x is Some { 1int } else { 0int }),
    decreases s.len(),
{
    if i == s.len() - 1 {
        assert(s.update(i, x).drop_last() =~= s.drop_last());
    } else {
        assert(s.update(i, x).drop_last() =~= s.drop_last().update(i, x));
        lemma_count_update(s.drop_last(), i, x);
    }
}

proof fn lemma_count_missing<K: MapKey, V>(s: Seq<Option<(K, V)>>) -> (e: int)
    requires
        occupied_count(s) < s.len(),
    ensures
        0 <= e < s.len(),
        s[e] is None,
    decreases s.len(),
{
    lemma_count_le_len(s.drop_last());
    if s.last() is None {
        s.len() - 1
    } else {
        let e = lemma_count_missing(s.drop_last());
        e
    }
}

proof fn lemma_count_take_le<K: MapKey, V>(s: Seq<Option<(K, V)>>, i: int)
    requires
        0 <= i <= s.len(),
    ensures
        occupied_count(s.take(i)) <= i,
{
    lemma_count_le_len(s.take(i));
}

// ---------------------------------------------------------------------
// Modular arithmetic lemmas
// ---------------------------------------------------------------------

proof fn lemma_mod_range(x: int, m: int)
    requires
        m > 0,
    ensures
        0 <= x % m < m,
{
}

/// Probing visits pairwise distinct slots while it stays under the
/// capacity.
proof fn lemma_probe_injective(start: int, cap: int, j1: int, j2: int)
    requires
        cap > 0,
        0 <= j1 < cap,
        0 <= j2 < cap,
        j1 != j2,
    ensures
        probe_index(start, j1, cap) != probe_index(start, j2, cap),
{
    if probe_index(start, j1, cap) == probe_index(start, j2, cap) {
        lemma_fundamental_div_mod(start + j1, cap);
        lemma_fundamental_div_mod(start + j2, cap);
        let q1 = (start + j1) / cap;
        let q2 = (start + j2) / cap;
        assert(j2 - j1 == cap * (q2 - q1)) by (nonlinear_arith)
            requires
                start + j1 == q1 * cap + probe_index(start, j1, cap),
                start + j2 == q2 * cap + probe_index(start, j2, cap),
                probe_index(start, j1, cap) == probe_index(start, j2, cap),
        {
        }
        assert(cap * (q2 - q1) >= cap || cap * (q2 - q1) <= 0 - cap || cap * (q2 - q1) == 0)
            by (nonlinear_arith)
            requires
                cap > 0,
        {
        }
    }
}

/// Within `cap` steps the probe sequence reaches any slot.
proof fn lemma_probe_reaches(start: int, cap: int, e: int) -> (j: int)
    requires
        cap > 0,
        0 <= start < cap,
        0 <= e < cap,
    ensures
        0 <= j < cap,
        probe_index(start, j, cap) == e,
{
    let j = if e >= start { e - start } else { e + cap - start };
    if e >= start {
        lemma_mod_range(e, cap);
        assert(e % cap == e) by {
            lemma_fundamental_div_mod(e, cap);
            assert(e / cap == 0) by (nonlinear_arith)
                requires cap > 0, 0 <= e < cap, e == cap * (e / cap) + e % cap, 0 <= e % cap < cap,
            {
            }
        }
    } else {
        lemma_mod_add_multiples_vanish(e, cap);
        assert(e % cap == e) by {
            lemma_fundamental_div_mod(e, cap);
            assert(e / cap == 0) by (nonlinear_arith)
                requires cap > 0, 0 <= e < cap, e == cap * (e / cap) + e % cap, 0 <= e % cap < cap,
            {
            }
        }
    }
    j
}

// ---------------------------------------------------------------------
// Probe characterization lemmas
// ---------------------------------------------------------------------

/// What the step count means: no stop before it, a stop at it if it is
/// under the capacity.
proof fn lemma_probe_char<K: MapKey, V>(s: Seq<Option<(K, V)>>, kv: K::V, j: nat)
    requires
        j <= s.len(),
    ensures
        j <= probe_steps_from(s, kv, j) <= s.len(),
        probe_steps_from(s, kv, j) < s.len() ==> probe_stops(
            s[probe_index(start_index::<K>(kv, s.len() as int), probe_steps_from(s, kv, j) as int, s.len() as int)],
            kv,
        ),
        forall |jj: nat| j <= jj < probe_steps_from(s, kv, j) ==> !probe_stops(
            s[probe_index(start_index::<K>(kv, s.len() as int), jj as int, s.len() as int)],
            #[trigger] spec_id(jj, kv),
        ),
    decreases s.len() - j,
{
    if j < s.len() {
        if !probe_stops(s[probe_index(start_index::<K>(kv, s.len() as int), j as int, s.len() as int)], kv) {
            lemma_probe_char(s, kv, j + 1);
        }
    }
}

/// Identity used only to give quantifiers a stable trigger.
pub open spec fn spec_id<T>(j: nat, x: T) -> T {
    x
}

/// The step count never passes a stopping slot.
proof fn lemma_probe_min<K: MapKey, V>(s: Seq<Option<(K, V)>>, kv: K::V, j: nat, m: nat)
    requires
        j <= m < s.len(),
        probe_stops(s[probe_index(start_index::<K>(kv, s.len() as int), m as int, s.len() as int)], kv),
    ensures
        probe_steps_from(s, kv, j) <= m,
    decreases m - j,
{
    if j < m {
        if !probe_stops(s[probe_index(start_index::<K>(kv, s.len() as int), j as int, s.len() as int)], kv) {
            lemma_probe_min(s, kv, j + 1, m);
        }
    }
}

/// With an empty slot somewhere, probing stops within the capacity.
proof fn lemma_probe_terminates<K: MapKey, V>(s: Seq<Option<(K, V)>>, kv: K::V)
    requires
        occupied_count(s) < s.len(),
    ensures
        probe_steps(s, kv) < s.len(),
{
    let e = lemma_count_missing(s);
    let st = start_index::<K>(kv, s.len() as int);
    lemma_mod_range(K::hash_spec(kv) as int, s.len() as int);
    let j = lemma_probe_reaches(st, s.len() as int, e);
    lemma_probe_min(s, kv, 0, j as nat);
}

/// Same characterization for the key-blind probe for an empty slot.
proof fn lemma_free_char<K: MapKey, V>(s: Seq<Option<(K, V)>>, kv: K::V, j: nat)
    requires
        j <= s.len(),
    ensures
        j <= free_steps_from(s, kv, j) <= s.len(),
        free_steps_from(s, kv, j) < s.len() ==> s[probe_index(
            start_index::<K>(kv, s.len() as int),
            free_steps_from(s, kv, j) as int,
            s.len() as int,
        )] is None,
        forall |jj: nat| j <= jj < free_steps_from(s, kv, j) ==> s[probe_index(
            start_index::<K>(kv, s.len() as int),
            #[trigger] spec_id(jj, jj as int),
            s.len() as int,
        )] is Some,
    decreases s.len() - j,
{
    if j < s.len() {
        if s[probe_index(start_index::<K>(kv, s.len() as int), j as int, s.len() as int)] is Some {
            lemma_free_char(s, kv, j + 1);
        }
    }
}

proof fn lemma_free_min<K: MapKey, V>(s: Seq<Option<(K, V)>>, kv: K::V, j: nat, m: nat)
    requires
        j <= m < s.len(),
        s[probe_index(start_index::<K>(kv, s.len() as int), m as int, s.len() as int)] is None,
    ensures
        free_steps_from(s, kv, j) <= m,
    decreases m - j,
{
    if j < m {
        if s[probe_index(start_index::<K>(kv, s.len() as int), j as int, s.len() as int)] is Some {
            lemma_free_min(s, kv, j + 1, m);
        }
    }
}

proof fn lemma_free_terminates<K: MapKey, V>(s: Seq<Option<(K, V)>>, kv: K::V)
    requires
        occupied_count(s) < s.len(),
    ensures
        free_steps(s, kv) < s.len(),
{
    let e = lemma_count_missing(s);
    let st = start_index::<K>(kv, s.len() as int);
    lemma_mod_range(K::hash_spec(kv) as int, s.len() as int);
    let j = lemma_probe_reaches(st, s.len() as int, e);
    lemma_free_min(s, kv, 0, j as nat);
}

/// Updating the slot where probing for `kv` stops, with contents at
/// which probing still stops, leaves the step count unchanged.
proof fn lemma_update_at_stop<K: MapKey, V>(s: Seq<Option<(K, V)>>, kv: K::V, x: Option<(K, V)>)
    requires
        probe_steps(s, kv) < s.len(),
        probe_stops(x, kv),
    ensures
        probe_steps(s.update(stop_index(s, kv), x), kv) == probe_steps(s, kv),
        s.update(stop_index(s, kv), x)[stop_index(s, kv)] == x,
{
    let n = probe_steps(s, kv);
    let cap = s.len() as int;
    let st = start_index::<K>(kv, cap);
    let s2 = s.update(stop_index(s, kv), x);
    lemma_mod_range(K::hash_spec(kv) as int, cap);
    lemma_probe_char(s, kv, 0);
    assert forall |jj: nat| jj < n implies !probe_stops(
        s2[probe_index(st, jj as int, cap)],
        #[trigger] spec_id(jj, kv),
    ) by {
        lemma_mod_range(st + jj, cap);
        lemma_probe_injective(st, cap, jj as int, n as int);
        assert(!probe_stops(s[probe_index(st, jj as int, cap)], spec_id(jj, kv)));
    }
    lemma_mod_range(st + n, cap);
    assert(s2[probe_index(st, n as int, cap)] == x);
    lemma_probe_min(s2, kv, 0, n);
    lemma_probe_char(s2, kv, 0);
    if probe_steps(s2, kv) < n {
        assert(probe_stops(s2[probe_index(st, probe_steps(s2, kv) as int, cap)], kv));
        assert(!probe_stops(s2[probe_index(st, probe_steps(s2, kv) as int, cap)],
            spec_id(probe_steps(s2, kv), kv)));
    }
}

/// Advancing the probe cursor by one wraps modulo the capacity.
proof fn lemma_step_index(start: int, j: int, cap: int)
    requires
        cap > 1,
    ensures
        (probe_index(start, j, cap) + 1) % cap == probe_index(start, j + 1, cap),
{
    lemma_add_mod_noop(start + j, 1, cap);
    lemma_small_mod(1nat, cap as nat);
}

/// An all-empty slot array denotes the empty map.
proof fn lemma_all_empty_map<K: MapKey, V>(s: Seq<Option<(K, V)>>)
    requires
        s.len() > 0,
        forall |i: int| 0 <= i < s.len() ==> #[trigger] s[i] is None,
    ensures
        table_map(s) =~= Map::<K::V, V>::empty(),
{
    assert forall |kv: K::V| !spec_found(s, kv) by {
        lemma_mod_range(K::hash_spec(kv) as int, s.len() as int);
        lemma_mod_range(start_index::<K>(kv, s.len() as int), s.len() as int);
    }
    assert(table_map::<K, V>(s).dom() =~= Set::<K::V>::empty());
}

// ---------------------------------------------------------------------
// Well-formedness: probing observes exactly the stored pairs
// ---------------------------------------------------------------------

/// Every pair of `s` occurs in `src`.
pub open spec fn pairs_from<K: MapKey, V>(src: Seq<Option<(K, V)>>, s: Seq<Option<(K, V)>>) -> bool {
    forall |j: int| 0 <= j < s.len() && #[trigger] s[j] is Some
        ==> exists |jj: int| 0 <= jj < src.len() && #[trigger] src[jj] == s[j]
}

/// The wrap-around distance from `st` to the slot `n` steps along its
/// chain is `n` itself.
proof fn lemma_probe_dist(st: int, n: int, cap: int)
    requires
        cap > 0,
        0 <= st < cap,
        0 <= n < cap,
    ensures
        (probe_index(st, n, cap) - st) % cap == n,
{
    lemma_fundamental_div_mod(st + n, cap);
    let q = (st + n) / cap;
    let r = (st + n) % cap;
    assert(cap * (-q) + n == r - st) by (nonlinear_arith)
        requires
            st + n == cap * q + r,
    {
    }
    lemma_mod_multiples_vanish(-q, n, cap);
    lemma_small_mod(n as nat, cap as nat);
    assert((r - st) % cap == n % cap);
}

/// With distinct keys and unbroken chains, probing for a stored key
/// finds exactly the slot that holds it.
proof fn lemma_wf_lookup<K: MapKey, V>(s: Seq<Option<(K, V)>>, kv: K::V, i: int)
    requires
        distinct_keys(s),
        chains_ok(s),
        0 <= i < s.len(),
        slot_matches(s[i], kv),
    ensures
        spec_found(s, kv),
        stop_index(s, kv) == i,
        spec_value(s, kv) == s[i].unwrap().1,
{
    let cap = s.len() as int;
    let st = start_index::<K>(kv, cap);
    lemma_mod_range(K::hash_spec(kv) as int, cap);
    let d = (i - st) % cap;
    lemma_mod_range(i - st, cap);
    lemma_small_mod(st as nat, cap as nat);
    lemma_add_mod_noop(st, i - st, cap);
    lemma_small_mod(i as nat, cap as nat);
    assert(probe_index(st, d, cap) == i);
    assert(chain_ok_at(s, i));
    assert forall |jj: nat| jj < d implies !probe_stops(
        s[probe_index(st, jj as int, cap)],
        #[trigger] spec_id(jj, kv),
    ) by {
        assert(s[probe_index(st, jj as int, cap)] is Some);
        lemma_mod_range(st + jj, cap);
        lemma_probe_injective(st, cap, jj as int, d);
    }
    lemma_probe_min(s, kv, 0, d as nat);
    lemma_probe_char(s, kv, 0);
    if probe_steps(s, kv) < d {
        assert(probe_stops(s[probe_index(st, probe_steps(s, kv) as int, cap)], kv));
        assert(!probe_stops(s[probe_index(st, probe_steps(s, kv) as int, cap)],
            spec_id(probe_steps(s, kv), kv)));
    }
}

/// Placing a pair at the slot where probing for its key stops keeps
/// keys distinct and chains unbroken, and updates the observed map by
/// exactly that one binding.
proof fn lemma_insert_slot_wf<K: MapKey, V>(s: Seq<Option<(K, V)>>, kv: K::V, pair: (K, V))
    requires
        distinct_keys(s),
        chains_ok(s),
        pair.0@ == kv,
        probe_steps(s, kv) < s.len(),
    ensures
        ({ let s2 = s.update(stop_index(s, kv), Some(pair));
            &&& distinct_keys(s2)
            &&& chains_ok(s2)
            &&& table_map(s2) == table_map(s).insert(kv, pair.1)
        }),
{
    let cap = s.len() as int;
    let st = start_index::<K>(kv, cap);
    let n = probe_steps(s, kv);
    let u = stop_index(s, kv);
    lemma_mod_range(K::hash_spec(kv) as int, cap);
    lemma_mod_range(st + n, cap);
    lemma_probe_char(s, kv, 0);
    let s2 = s.update(u, Some(pair));
    lemma_update_at_stop(s, kv, Some(pair));
    assert(spec_found(s2, kv));
    assert(spec_value(s2, kv) == pair.1);
    // No slot other than u can hold kv.
    assert forall |j: int| 0 <= j < s.len() && j != u implies !slot_matches(#[trigger] s[j], kv) by {
        if slot_matches(s[j], kv) {
            lemma_wf_lookup(s, kv, j);
        }
    }
    assert(distinct_keys(s2)) by {
        assert forall |a: int, b: int|
            0 <= a < s2.len() && 0 <= b < s2.len() && a != b
                && #[trigger] s2[a] is Some && #[trigger] s2[b] is Some
            implies s2[a].unwrap().0@ != s2[b].unwrap().0@ by {
            if a != u && b != u {
                assert(s2[a] == s[a] && s2[b] == s[b]);
            } else if a == u {
                assert(s2[b] == s[b]);
                assert(!slot_matches(s[b], kv));
            } else {
                assert(s2[a] == s[a]);
                assert(!slot_matches(s[a], kv));
            }
        }
    }
    assert(chains_ok(s2)) by {
        assert forall |i0: int| 0 <= i0 < s2.len() implies chain_ok_at(s2, i0) by {
            if s2[i0] is Some {
                if i0 == u {
                    lemma_probe_dist(st, n as int, cap);
                    assert((i0 - st) % cap == n);
                    assert forall |j: int| 0 <= j < n implies
                        #[trigger] s2[probe_index(st, j, cap)] is Some by {
                        assert(!probe_stops(s[probe_index(st, j as nat as int, cap)],
                            spec_id(j as nat, kv)));
                        lemma_mod_range(st + j, cap);
                    }
                } else {
                    assert(chain_ok_at(s, i0));
                    assert(s2[i0] == s[i0]);
                    let kv0 = s[i0].unwrap().0@;
                    let st0 = start_index::<K>(kv0, cap);
                    let d0 = (i0 - st0) % cap;
                    assert forall |j: int| 0 <= j < d0 implies
                        #[trigger] s2[probe_index(st0, j, cap)] is Some by {
                        assert(s[probe_index(st0, j, cap)] is Some);
                    }
                }
            }
        }
    }
    // The observed map gains exactly the binding kv -> pair.1.
    assert forall |kv2: K::V| kv2 != kv implies
        (#[trigger] spec_found(s2, kv2) == spec_found(s, kv2)
            && (spec_found(s, kv2) ==> spec_value(s2, kv2) == spec_value(s, kv2))) by {
        if has_key(s, kv2) {
            let j = choose |j: int| 0 <= j < s.len() && slot_matches(#[trigger] s[j], kv2);
            assert(j != u) by {
                if j == u {
                    if s[u] is Some {
                        assert(slot_matches(s[u], kv));
                    }
                }
            }
            assert(slot_matches(s2[j], kv2));
            lemma_wf_lookup(s, kv2, j);
            lemma_wf_lookup(s2, kv2, j);
        } else {
            assert(!spec_found(s, kv2)) by {
                if spec_found(s, kv2) {
                    assert(slot_matches(s[stop_index(s, kv2)], kv2));
                    lemma_mod_range(start_index::<K>(kv2, cap) + probe_steps(s, kv2), cap);
                }
            }
            assert(!spec_found(s2, kv2)) by {
                if spec_found(s2, kv2) {
                    let t = stop_index(s2, kv2);
                    lemma_mod_range(start_index::<K>(kv2, cap) + probe_steps(s2, kv2), cap);
                    assert(slot_matches(s2[t], kv2));
                    if t == u {
                        assert(s2[t].unwrap().0@ == kv);
                    } else {
                        assert(slot_matches(s[t], kv2));
                    }
                }
            }
        }
    }
    assert forall |kv2: K::V| kv2 != kv && #[trigger] spec_found(s, kv2)
        implies spec_value(s2, kv2) == spec_value(s, kv2) by {
        assert(spec_found(s2, kv2));
    }
    assert(table_map(s2) =~= table_map(s).insert(kv, pair.1));
}

/// Extending a prefix of the source by one slot extends the stored keys
/// by at most that slot's key.
proof fn lemma_has_key_extend<K: MapKey, V>(s: Seq<Option<(K, V)>>, i: int)
    requires
        0 <= i < s.len(),
    ensures
        forall |kv: K::V| #[trigger] has_key(s.take(i + 1), kv)
            <==> (has_key(s.take(i), kv) || slot_matches(s[i], kv)),
{
    assert forall |kv: K::V| #[trigger] has_key(s.take(i + 1), kv)
        <==> (has_key(s.take(i), kv) || slot_matches(s[i], kv)) by {
        if has_key(s.take(i + 1), kv) {
            let j = choose |j: int| 0 <= j < s.take(i + 1).len()
                && slot_matches(#[trigger] s.take(i + 1)[j], kv);
            if j < i {
                assert(s.take(i)[j] == s.take(i + 1)[j]);
                assert(has_key(s.take(i), kv));
            } else {
                assert(s.take(i + 1)[i] == s[i]);
            }
        }
        if has_key(s.take(i), kv) {
            let j = choose |j: int| 0 <= j < s.take(i).len()
                && slot_matches(#[trigger] s.take(i)[j], kv);
            assert(s.take(i + 1)[j] == s.take(i)[j]);
            assert(has_key(s.take(i + 1), kv));
        }
        if slot_matches(s[i], kv) {
            assert(s.take(i + 1)[i] == s[i]);
            assert(has_key(s.take(i + 1), kv));
        }
    }
}

/// Rehashing the pairs of `old_s` from `i` on into `acc` keeps keys
/// distinct, chains unbroken, and stores exactly the pairs of `old_s`.
proof fn lemma_rehash<K: MapKey, V>(old_s: Seq<Option<(K, V)>>, acc: Seq<Option<(K, V)>>, i: int)
    requires
        0 <= i <= old_s.len(),
        acc.len() > old_s.len(),
        distinct_keys(old_s),
        distinct_keys(acc),
        chains_ok(acc),
        occupied_count(acc) == occupied_count(old_s.take(i)),
        forall |kv: K::V| #[trigger] has_key(acc, kv) <==> has_key(old_s.take(i), kv),
        pairs_from(old_s.take(i), acc),
    ensures
        ({ let g = rehash_into(old_s, acc, i);
            &&& g.len() == acc.len()
            &&& occupied_count(g) == occupied_count(old_s)
            &&& distinct_keys(g)
            &&& chains_ok(g)
            &&& (forall |kv: K::V| #[trigger] has_key(g, kv) <==> has_key(old_s, kv))
            &&& pairs_from(old_s, g)
        }),
    decreases old_s.len() - i,
{
    if i >= old_s.len() {
        assert(old_s.take(i) =~= old_s);
    } else if old_s[i] is Some {
        let pair = old_s[i].unwrap();
        let kv = pair.0@;
        let len2 = acc.len() as int;
        lemma_count_take_le(old_s, i);
        lemma_free_terminates(acc, kv);
        let n = free_steps(acc, kv);
        let st = start_index::<K>(kv, len2);
        lemma_mod_range(K::hash_spec(kv) as int, len2);
        lemma_free_char(acc, kv, 0);
        let fidx = free_index(acc, kv);
        lemma_mod_range(st + n, len2);
        let acc2 = place_free(acc, pair);
        assert(acc2 == acc.update(fidx, Some(pair)));
        assert(acc[fidx] is None);
        assert(!has_key(acc, kv)) by {
            if has_key(acc, kv) {
                let jj = choose |jj: int| 0 <= jj < old_s.take(i).len()
                    && slot_matches(#[trigger] old_s.take(i)[jj], kv);
                assert(old_s[jj] == old_s.take(i)[jj]);
                assert(old_s[jj].unwrap().0@ == old_s[i].unwrap().0@);
            }
        }
        assert(distinct_keys(acc2)) by {
            assert forall |a: int, b: int|
                0 <= a < acc2.len() && 0 <= b < acc2.len() && a != b
                    && #[trigger] acc2[a] is Some && #[trigger] acc2[b] is Some
                implies acc2[a].unwrap().0@ != acc2[b].unwrap().0@ by {
                if a == fidx {
                    assert(acc2[b] == acc[b]);
                    if acc[b].unwrap().0@ == kv {
                        assert(has_key(acc, kv));
                    }
                } else if b == fidx {
                    assert(acc2[a] == acc[a]);
                    if acc[a].unwrap().0@ == kv {
                        assert(has_key(acc, kv));
                    }
                } else {
                    assert(acc2[a] == acc[a] && acc2[b] == acc[b]);
                }
            }
        }
        assert(chains_ok(acc2)) by {
            assert forall |i0: int| 0 <= i0 < acc2.len() implies chain_ok_at(acc2, i0) by {
                if acc2[i0] is Some {
                    if i0 == fidx {
                        lemma_probe_dist(st, n as int, len2);
                        assert((i0 - st) % len2 == n);
                        assert forall |j: int| 0 <= j < n implies
                            #[trigger] acc2[probe_index(st, j, len2)] is Some by {
                            assert(acc[probe_index(st, spec_id(j as nat, j), len2)] is Some);
                            lemma_mod_range(st + j, len2);
                        }
                    } else {
                        assert(chain_ok_at(acc, i0));
                        assert(acc2[i0] == acc[i0]);
                        let kv0 = acc[i0].unwrap().0@;
                        let st0 = start_index::<K>(kv0, len2);
                        let d0 = (i0 - st0) % len2;
                        assert forall |j: int| 0 <= j < d0 implies
                            #[trigger] acc2[probe_index(st0, j, len2)] is Some by {
                            assert(acc[probe_index(st0, j, len2)] is Some);
                        }
                    }
                }
            }
        }
        lemma_count_update(acc, fidx, Some(pair));
        assert(old_s.take(i + 1).drop_last() =~= old_s.take(i));
        lemma_has_key_extend(old_s, i);
        assert forall |kv2: K::V| #[trigger] has_key(acc2, kv2)
            <==> has_key(old_s.take(i + 1), kv2) by {
            if has_key(acc2, kv2) {
                let j = choose |j: int| 0 <= j < acc2.len() && slot_matches(#[trigger] acc2[j], kv2);
                if j == fidx {
                    assert(kv2 == kv);
                } else {
                    assert(slot_matches(acc[j], kv2));
                    assert(has_key(acc, kv2));
                }
            }
            if has_key(acc, kv2) {
                let j = choose |j: int| 0 <= j < acc.len() && slot_matches(#[trigger] acc[j], kv2);
                assert(j != fidx);
                assert(slot_matches(acc2[j], kv2));
                assert(has_key(acc2, kv2));
            }
            if kv2 == kv {
                assert(slot_matches(acc2[fidx], kv2));
                assert(has_key(acc2, kv2));
            }
        }
        assert(pairs_from(old_s.take(i + 1), acc2)) by {
            assert forall |j: int| 0 <= j < acc2.len() && #[trigger] acc2[j] is Some
                implies exists |jj: int| 0 <= jj < old_s.take(i + 1).len()
                    && #[trigger] old_s.take(i + 1)[jj] == acc2[j] by {
                if j == fidx {
                    assert(old_s.take(i + 1)[i] == acc2[j]);
                } else {
                    assert(acc[j] is Some);
                    let jj = choose |jj: int| 0 <= jj < old_s.take(i).len()
                        && #[trigger] old_s.take(i)[jj] == acc[j];
                    assert(old_s.take(i + 1)[jj] == acc2[j]);
                }
            }
        }
        lemma_rehash(old_s, acc2, i + 1);
    } else {
        assert(old_s.take(i + 1).drop_last() =~= old_s.take(i));
        lemma_has_key_extend(old_s, i);
        assert forall |kv2: K::V| #[trigger] has_key(acc, kv2)
            <==> has_key(old_s.take(i + 1), kv2) by {
        }
        assert(pairs_from(old_s.take(i + 1), acc)) by {
            assert forall |j: int| 0 <= j < acc.len() && #[trigger] acc[j] is Some
                implies exists |jj: int| 0 <= jj < old_s.take(i + 1).len()
                    && #[trigger] old_s.take(i + 1)[jj] == acc[j] by {
                let jj = choose |jj: int| 0 <= jj < old_s.take(i).len()
                    && #[trigger] old_s.take(i)[jj] == acc[j];
                assert(old_s.take(i + 1)[jj] == acc[j]);
            }
        }
        lemma_rehash(old_s, acc, i + 1);
    }
}

/// Growth preserves distinct keys, unbroken chains, the occupied count
/// and the observed map.
proof fn lemma_grown_wf<K: MapKey, V>(s: Seq<Option<(K, V)>>)
    requires
        distinct_keys(s),
        chains_ok(s),
        s.len() > 0,
    ensures
        ({ let g = grown_slots(s);
            &&& g.len() == 2 * s.len()
            &&& occupied_count(g) == occupied_count(s)
            &&& distinct_keys(g)
            &&& chains_ok(g)
            &&& table_map(g) == table_map(s)
        }),
{
    let acc = Seq::new(2 * s.len(), |j: int| None::<(K, V)>);
    let g = grown_slots(s);
    assert(occupied_count(s.take(0)) == 0);
    lemma_count_all_empty(acc);
    assert forall |kv: K::V| !(#[trigger] has_key(acc, kv)) by {
        if has_key(acc, kv) {
            let j = choose |j: int| 0 <= j < acc.len() && slot_matches(#[trigger] acc[j], kv);
        }
    }
    assert forall |kv: K::V| !(#[trigger] has_key(s.take(0), kv)) by {
        if has_key(s.take(0), kv) {
            let j = choose |j: int| 0 <= j < s.take(0).len()
                && slot_matches(#[trigger] s.take(0)[j], kv);
        }
    }
    lemma_rehash(s, acc, 0);
    // The observed maps coincide pointwise.
    assert forall |kv: K::V| #[trigger] spec_found(g, kv) == spec_found(s, kv)
        && (spec_found(s, kv) ==> spec_value(g, kv) == spec_value(s, kv)) by {
        if spec_found(s, kv) {
            lemma_mod_range(start_index::<K>(kv, s.len() as int) + probe_steps(s, kv), s.len() as int);
            assert(slot_matches(s[stop_index(s, kv)], kv));
            assert(has_key(s, kv));
            assert(has_key(g, kv));
            let j = choose |j: int| 0 <= j < g.len() && slot_matches(#[trigger] g[j], kv);
            lemma_wf_lookup(g, kv, j);
            let jj = choose |jj: int| 0 <= jj < s.len() && #[trigger] s[jj] == g[j];
            lemma_wf_lookup(s, kv, jj);
        } else {
            assert(!has_key(s, kv)) by {
                if has_key(s, kv) {
                    let j = choose |j: int| 0 <= j < s.len() && slot_matches(#[trigger] s[j], kv);
                    lemma_wf_lookup(s, kv, j);
                }
            }
            assert(!has_key(g, kv));
            assert(!spec_found(g, kv)) by {
                if spec_found(g, kv) {
                    lemma_mod_range(start_index::<K>(kv, g.len() as int) + probe_steps(g, kv),
                        g.len() as int);
                    assert(slot_matches(g[stop_index(g, kv)], kv));
                    assert(has_key(g, kv));
                }
            }
        }
    }
    assert forall |kv: K::V| #[trigger] spec_found(s, kv)
        implies spec_value(g, kv) == spec_value(s, kv) by {
        assert(spec_found(g, kv) == spec_found(s, kv)
            && (spec_found(s, kv) ==> spec_value(g, kv) == spec_value(s, kv)));
    }
    assert(table_map(g) =~= table_map(s));
}

// ---------------------------------------------------------------------
// The operations
// ---------------------------------------------------------------------

impl<K: MapKey, V> HashMap<K, V> {
    /// What `insert(key, value)` does. The table first grows if the new
    /// entry would pass the load factor threshold; the entry then lands
    /// at the slot where probing for its key stops, overwriting a
    /// matching pair or filling an empty slot, and the previous value
    /// comes back.
    pub open spec fn insert_effect(pre: Self, post: Self, key: K, value: V, prev: Option<V>) -> bool {
        let mids: Seq<Option<(K, V)>> = if pre.growth_pending() {
            grown_slots(pre.elements@)
        } else {
            pre.elements@
        };
        let kv = key@;
        &&& post.capacity == (if pre.growth_pending() { 2 * pre.capacity } else { pre.capacity as int })
        &&& probe_steps(mids, kv) < mids.len()
        &&& post.elements@ == mids.update(stop_index(mids, kv), Some((key, value)))
        &&& prev == (if spec_found(mids, kv) { Some(spec_value(mids, kv)) } else { None::<V> })
        &&& post.size == pre.size + (if spec_found(mids, kv) { 0int } else { 1int })
        &&& post@.contains_key(kv)
        &&& post@[kv] == value
        &&& (pre.inv() && pre.wf() ==> {
            &&& post.wf()
            &&& post@ == pre@.insert(kv, value)
            &&& prev == (if pre@.contains_key(kv) { Some(pre@[kv]) } else { None::<V> })
            &&& post.size == pre.size + (if pre@.contains_key(kv) { 0int } else { 1int })
        })
    }

    /// What `remove(key)` does. Probing decides presence; a found pair
    /// leaves its slot empty, with no chain repair, and in either case
    /// the key is absent from the table's view afterwards.
    pub open spec fn remove_effect(pre: Self, post: Self, kv: K::V, removed: Option<V>) -> bool {
        &&& post.capacity == pre.capacity
        &&& (removed is Some <==> pre@.contains_key(kv))
        &&& (pre@.contains_key(kv) ==> {
            &&& removed == Some(pre@[kv])
            &&& post.elements@ == pre.elements@.update(stop_index(pre.elements@, kv), None::<(K, V)>)
            &&& post.size + 1 == pre.size
        })
        &&& (!pre@.contains_key(kv) ==> post == pre)
        &&& !post@.contains_key(kv)
        &&& (distinct_keys(pre.elements@) ==> distinct_keys(post.elements@))
    }

    /// Creates an empty table of the default capacity.
    pub fn new() -> (table: Self)
        ensures
            table.inv(),
            table.wf(),
            table.size == 0,
            table.capacity == DEFAULT_CAPACITY,
            table@ == Map::<K::V, V>::empty(),
    {
        let mut elements_vec: Vec<Option<(K, V)>> = Vec::new();
        let mut i: usize = 0;
        while i < DEFAULT_CAPACITY
            invariant
                i <= DEFAULT_CAPACITY,
                elements_vec@.len() == i,
                forall |j: int| 0 <= j < i ==> #[trigger] elements_vec@[j] is None,
            decreases DEFAULT_CAPACITY - i,
        {
            elements_vec.push(None);
            i = i + 1;
        }
        let table = (Self { elements: elements_vec, size: 0, capacity: DEFAULT_CAPACITY });
        proof {
            lemma_count_all_empty(table.elements@);
            lemma2_to64();
            assert(table.capacity == DEFAULT_CAPACITY * pow2(0));
            lemma_all_empty_map(table.elements@);
            assert(table@ =~= Map::<K::V, V>::empty());
        }
        table
    }

    /// Looks the key up; the result is exactly what probing observes.
    pub fn get(&self, key: &K) -> (found: Option<&V>)
        requires
            self.inv(),
        ensures
            (found is Some <==> self@.contains_key(key@)),
            (found matches Some(v) ==> *v == self@[key@]),
    {
        let ghost s = self.elements@;
        let ghost kv = key@;
        let ghost cap = self.capacity as int;
        let ghost st = start_index::<K>(kv, cap);
        let hash = key.hash_key();
        let elements_len = self.capacity;
        proof {
            lemma_mod_range(K::hash_spec(kv) as int, cap);
            lemma_small_mod(st as nat, cap as nat);
            assert(probe_index(st, 0, cap) == st);
        }
        let mut hashed_index: usize = (hash % (elements_len as u64)) as usize;
        let mut num_iterations: usize = 0;
        while num_iterations < elements_len
            invariant
                self.inv(),
                s == self.elements@,
                kv == key@,
                cap == self.capacity as int,
                elements_len == self.capacity,
                st == start_index::<K>(kv, cap),
                num_iterations <= elements_len,
                hashed_index == probe_index(st, num_iterations as int, cap),
                0 <= hashed_index < elements_len,
                probe_steps(s, kv) == probe_steps_from(s, kv, num_iterations as nat),
            decreases elements_len - num_iterations,
        {
            match &self.elements[hashed_index] {
                Some(pair) => {
                    if key.key_eq(&pair.0) {
                        proof {
                            assert(probe_steps(s, kv) == num_iterations as nat);
                            assert(spec_found(s, kv));
                        }
                        return Some(&pair.1);
                    } else {
                        proof {
                            assert(!probe_stops(s[hashed_index as int], kv));
                            lemma_step_index(st, num_iterations as int, cap);
                            lemma_mod_range(st + num_iterations + 1, cap);
                        }
                        num_iterations = num_iterations + 1;
                        hashed_index = (hashed_index + 1) % elements_len;
                    }
                }
                None => {
                    proof {
                        assert(probe_steps(s, kv) == num_iterations as nat);
                        assert(!spec_found(s, kv));
                    }
                    return None;
                }
            }
        }
        proof {
            lemma_probe_terminates(s, kv);
        }
        unreached()
    }

    /// Is the key present? Defined by `get`.
    pub fn contains_key(&self, key: &K) -> (present: bool)
        requires
            self.inv(),
        ensures
            present == self@.contains_key(key@),
    {
        self.get(key).is_some()
    }

    /// Removes the key if probing observes it, returning its value and
    /// emptying the slot. The emptied slot is not repaired: probe
    /// chains of other keys that ran through it may be cut.
    pub fn remove(&mut self, key: &K) -> (removed: Option<V>)
        requires
            old(self).inv(),
        ensures
            final(self).inv(),
            Self::remove_effect(*old(self), *final(self), key@, removed),
    {
        let ghost s = old(self).elements@;
        let ghost kv = key@;
        let ghost cap = old(self).capacity as int;
        let ghost st = start_index::<K>(kv, cap);
        let hash = key.hash_key();
        let elements_len = self.capacity;
        proof {
            lemma_mod_range(K::hash_spec(kv) as int, cap);
            lemma_small_mod(st as nat, cap as nat);
            assert(probe_index(st, 0, cap) == st);
        }
        let mut hashed_index: usize = (hash % (elements_len as u64)) as usize;
        let mut num_iterations: usize = 0;
        while num_iterations < elements_len
            invariant
                self.inv(),
                *self == *old(self),
                s == self.elements@,
                kv == key@,
                cap == self.capacity as int,
                elements_len == self.capacity,
                st == start_index::<K>(kv, cap),
                num_iterations <= elements_len,
                hashed_index == probe_index(st, num_iterations as int, cap),
                0 <= hashed_index < elements_len,
                probe_steps(s, kv) == probe_steps_from(s, kv, num_iterations as nat),
            decreases elements_len - num_iterations,
        {
            let hit = match &self.elements[hashed_index] {
                Some(pair) => key.key_eq(&pair.0),
                None => {
                    proof {
                        assert(probe_steps(s, kv) == num_iterations as nat);
                        assert(!spec_found(s, kv));
                    }
                    return None;
                }
            };
            if hit {
                proof {
                    assert(probe_steps(s, kv) == num_iterations as nat);
                    assert(spec_found(s, kv));
                }
                let mut taken: Option<(K, V)> = None;
                proof {
                    lemma_count_update(s, hashed_index as int, None);
                }
                core::mem::swap(&mut self.elements[hashed_index], &mut taken);
                self.size = self.size - 1;
                proof {
                    lemma_update_at_stop(s, kv, None::<(K, V)>);
                    assert(!spec_found(self.elements@, kv));
                    if distinct_keys(s) {
                        let s2 = self.elements@;
                        assert forall |a: int, b: int|
                            0 <= a < s2.len() && 0 <= b < s2.len() && a != b
                                && #[trigger] s2[a] is Some && #[trigger] s2[b] is Some
                            implies s2[a].unwrap().0@ != s2[b].unwrap().0@ by {
                            assert(s2[a] == s[a] && s2[b] == s[b]);
                        }
                    }
                }
                let pair = taken.unwrap();
                return Some(pair.1);
            } else {
                proof {
                    assert(!probe_stops(s[hashed_index as int], kv));
                    lemma_step_index(st, num_iterations as int, cap);
                    lemma_mod_range(st + num_iterations + 1, cap);
                }
                num_iterations = num_iterations + 1;
                hashed_index = (hashed_index + 1) % elements_len;
            }
        }
        proof {
            lemma_probe_terminates(s, kv);
        }
        unreached()
    }

    /// Grows the table, if the new entry would pass the load factor
    /// threshold, and places the entry where probing for its key stops:
    /// an empty slot takes the new pair, a matching key is overwritten
    /// in place and its previous value returned.
    ///
    /// The bound on `size` is a machine limit: it keeps the doubled
    /// capacity within `usize`, and is astronomically far beyond any
    /// table that fits in memory.
    pub fn insert(&mut self, key: K, value: V) -> (prev: Option<V>)
        requires
            old(self).inv(),
            old(self).size < usize::MAX / 4,
        ensures
            final(self).inv(),
            Self::insert_effect(*old(self), *final(self), key, value, prev),
    {
        self.resize_if_needed();
        let ghost pre = *old(self);
        let ghost mids = self.elements@;
        let ghost kv = key@;
        let ghost cap = self.capacity as int;
        let ghost st = start_index::<K>(kv, cap);
        let hash = key.hash_key();
        let elements_len = self.capacity;
        proof {
            lemma_mod_range(K::hash_spec(kv) as int, cap);
            lemma_small_mod(st as nat, cap as nat);
            assert(probe_index(st, 0, cap) == st);
            if pre.wf() {
                if pre.growth_pending() {
                    lemma_grown_wf(pre.elements@);
                }
                assert(distinct_keys(mids) && chains_ok(mids) && table_map(mids) == pre@);
            }
        }
        let mut hashed_index: usize = (hash % (elements_len as u64)) as usize;
        let mut num_iterations: usize = 0;
        while num_iterations < elements_len
            invariant
                self.inv(),
                mids == self.elements@,
                self.size == pre.size,
                pre == *old(self),
                self.capacity == (if pre.growth_pending() { 2 * pre.capacity } else { pre.capacity as int }),
                mids == (if pre.growth_pending() { grown_slots(pre.elements@) } else { pre.elements@ }),
                LOAD_FACTOR_DENOM * (self.size + 1) <= LOAD_FACTOR_NUMER * self.capacity,
                kv == key@,
                cap == self.capacity as int,
                elements_len == self.capacity,
                st == start_index::<K>(kv, cap),
                num_iterations <= elements_len,
                hashed_index == probe_index(st, num_iterations as int, cap),
                0 <= hashed_index < elements_len,
                probe_steps(mids, kv) == probe_steps_from(mids, kv, num_iterations as nat),
                pre.wf() ==> distinct_keys(mids) && chains_ok(mids) && table_map(mids) == pre@,
            decreases elements_len - num_iterations,
        {
            let hit = match &self.elements[hashed_index] {
                Some(pair) => key.key_eq(&pair.0),
                None => {
                    proof {
                        assert(probe_steps(mids, kv) == num_iterations as nat);
                        assert(!spec_found(mids, kv));
                    }
                    self.elements[hashed_index] = Some((key, value));
                    self.size = self.size + 1;
                    proof {
                        lemma_count_update(mids, hashed_index as int, Some((key, value)));
                        lemma_update_at_stop(mids, kv, Some((key, value)));
                        assert(spec_found(self.elements@, kv));
                        assert(spec_value(self.elements@, kv) == value);
                        if pre.wf() {
                            lemma_insert_slot_wf(mids, kv, (key, value));
                        }
                    }
                    return None;
                }
            };
            if hit {
                proof {
                    assert(probe_steps(mids, kv) == num_iterations as nat);
                    assert(spec_found(mids, kv));
                }
                let mut entry: Option<(K, V)> = Some((key, value));
                core::mem::swap(&mut self.elements[hashed_index], &mut entry);
                proof {
                    lemma_count_update(mids, hashed_index as int, Some((key, value)));
                    lemma_update_at_stop(mids, kv, Some((key, value)));
                    assert(spec_found(self.elements@, kv));
                    assert(spec_value(self.elements@, kv) == value);
                    if pre.wf() {
                        lemma_insert_slot_wf(mids, kv, (key, value));
                    }
                }
                let pair = entry.unwrap();
                return Some(pair.1);
            } else {
                proof {
                    assert(!probe_stops(mids[hashed_index as int], kv));
                    lemma_step_index(st, num_iterations as int, cap);
                    lemma_mod_range(st + num_iterations + 1, cap);
                }
                num_iterations = num_iterations + 1;
                hashed_index = (hashed_index + 1) % elements_len;
            }
        }
        proof {
            lemma_probe_terminates(mids, kv);
        }
        unreached()
    }

    /// Grows the table before an insert that would pass the load factor
    /// threshold, exactly as the threshold fraction dictates.
    fn resize_if_needed(&mut self)
        requires
            old(self).inv(),
            old(self).size < usize::MAX / 4,
        ensures
            final(self).inv(),
            final(self).size == old(self).size,
            final(self).capacity == (if old(self).growth_pending() {
                2 * old(self).capacity
            } else {
                old(self).capacity as int
            }),
            final(self).elements@ == (if old(self).growth_pending() {
                grown_slots(old(self).elements@)
            } else {
                old(self).elements@
            }),
            LOAD_FACTOR_DENOM * (final(self).size + 1) <= LOAD_FACTOR_NUMER * final(self).capacity,
    {
        let new_size = self.size + 1;
        proof {
            // The widened factors stay below 2^64, so neither product
            // can overflow the 128-bit comparison.
            assert(new_size as u128 <= u64::MAX as u128);
            assert(LOAD_FACTOR_DENOM as u128 == 10);
            assert(self.capacity as u128 <= u64::MAX as u128);
        }
        if (LOAD_FACTOR_DENOM as u128) * (new_size as u128)
            > (LOAD_FACTOR_NUMER as u128) * (self.capacity as u128) {
            proof {
                let q = usize::MAX / 4;
                assert(4 * q <= usize::MAX);
                assert(14 * self.capacity <= 20 * q + 20);
                assert(2 * self.capacity <= usize::MAX);
                lemma_count_le_len(self.elements@);
            }
            self.resize_underlying_table();
        }
    }

    /// Doubles the slot array and rehashes every pair into it, in array
    /// order, each landing at the first empty slot of its probe chain.
    fn resize_underlying_table(&mut self)
        requires
            old(self).inv(),
            2 * old(self).capacity <= usize::MAX,
        ensures
            final(self).inv(),
            final(self).size == old(self).size,
            final(self).capacity == 2 * old(self).capacity,
            final(self).elements@ == grown_slots(old(self).elements@),
    {
        let ghost pre = *old(self);
        let new_capacity = self.capacity * 2;
        let mut elements_vec: Vec<Option<(K, V)>> = Vec::new();
        let mut i: usize = 0;
        while i < new_capacity
            invariant
                i <= new_capacity,
                elements_vec@.len() == i,
                forall |j: int| 0 <= j < i ==> #[trigger] elements_vec@[j] is None,
            decreases new_capacity - i,
        {
            elements_vec.push(None);
            i = i + 1;
        }
        proof {
            lemma_count_all_empty(elements_vec@);
            assert(elements_vec@ =~= Seq::new(2 * self.elements@.len(), |j: int| None::<(K, V)>));
        }
        let ghost old_seq = self.elements@;
        let ghost big = new_capacity as int;
        let mut idx: usize = 0;
        while idx < self.capacity
            invariant
                idx <= pre.capacity,
                pre == *old(self),
                self.capacity == pre.capacity,
                self.size == pre.size,
                self.elements@.len() == pre.capacity,
                old_seq == pre.elements@,
                old_seq.len() == pre.capacity,
                big == 2 * pre.capacity,
                big == new_capacity,
                big >= 2,
                elements_vec@.len() == big,
                forall |j: int| idx <= j < old_seq.len() ==> self.elements@[j] == old_seq[j],
                occupied_count(elements_vec@) == occupied_count(old_seq.take(idx as int)),
                rehash_into(old_seq, elements_vec@, idx as int) == grown_slots(old_seq),
            decreases pre.capacity - idx,
        {
            let mut taken: Option<(K, V)> = None;
            core::mem::swap(&mut self.elements[idx], &mut taken);
            proof {
                assert(taken == old_seq[idx as int]);
                assert(old_seq.take(idx as int + 1).drop_last() =~= old_seq.take(idx as int));
            }
            match taken {
                Some(pair) => {
                    let ghost gpair = pair;
                    let ghost acc0 = elements_vec@;
                    let ghost pkv = gpair.0@;
                    let ghost st = start_index::<K>(pkv, big);
                    let hash = pair.0.hash_key();
                    proof {
                        lemma_count_take_le(old_seq, idx as int);
                        lemma_free_terminates(acc0, pkv);
                        lemma_mod_range(K::hash_spec(pkv) as int, big);
                        lemma_small_mod(st as nat, big as nat);
                        assert(probe_index(st, 0, big) == st);
                    }
                    let mut j: usize = 0;
                    let mut pos: usize = (hash % (new_capacity as u64)) as usize;
                    while elements_vec[pos].is_some()
                        invariant
                            acc0 == elements_vec@,
                            elements_vec@.len() == big,
                            big == new_capacity,
                            big > 1,
                            pkv == gpair.0@,
                            hash == K::hash_spec(pkv),
                            st == start_index::<K>(pkv, big),
                            j <= free_steps(acc0, pkv),
                            free_steps(acc0, pkv) < big,
                            pos == probe_index(st, j as int, big),
                            0 <= pos < big,
                            free_steps(acc0, pkv) == free_steps_from(acc0, pkv, j as nat),
                        decreases big - j,
                    {
                        proof {
                            lemma_step_index(st, j as int, big);
                            lemma_mod_range(st + j + 1, big);
                            lemma_free_char(acc0, pkv, j as nat + 1);
                        }
                        j = j + 1;
                        pos = (pos + 1) % new_capacity;
                    }
                    proof {
                        assert(free_steps(acc0, pkv) == j as nat);
                        assert(acc0[pos as int] is None);
                    }
                    elements_vec[pos] = Some(pair);
                    proof {
                        assert(elements_vec@ == place_free(acc0, gpair));
                        lemma_count_update(acc0, pos as int, Some(gpair));
                        assert(occupied_count(elements_vec@)
                            == occupied_count(old_seq.take(idx as int + 1)));
                    }
                }
                None => {
                    proof {
                        assert(occupied_count(elements_vec@)
                            == occupied_count(old_seq.take(idx as int + 1)));
                    }
                }
            }
            idx = idx + 1;
        }
        self.elements = elements_vec;
        self.capacity = new_capacity;
        proof {
            assert(old_seq.take(old_seq.len() as int) =~= old_seq);
            let d = choose |d: nat| pre.capacity == DEFAULT_CAPACITY * #[trigger] pow2(d);
            lemma_pow2_unfold(d + 1);
            assert(self.capacity == DEFAULT_CAPACITY * pow2(d + 1));
        }
    }
}

// ---------------------------------------------------------------------
// Laws
// ---------------------------------------------------------------------

impl<K: MapKey, V> HashMap<K, V> {
    /// Round trip: after an insert, the inserted key maps to the
    /// inserted value, so `get` returns it and `contains_key` is true.
    pub proof fn lemma_round_trip(pre: Self, post: Self, key: K, value: V, prev: Option<V>)
        requires
            Self::insert_effect(pre, post, key, value, prev),
        ensures
            post@.contains_key(key@),
            post@[key@] == value,
    {
    }

    /// Overwrite: inserting a fresh key twice returns None and then the
    /// first value, the view then holds the second value, and the size
    /// grows exactly once.
    pub proof fn lemma_overwrite(
        s0: Self,
        s1: Self,
        s2: Self,
        key: K,
        v1: V,
        v2: V,
        r1: Option<V>,
        r2: Option<V>,
    )
        requires
            s0.inv(),
            s0.wf(),
            s1.inv(),
            !s0@.contains_key(key@),
            Self::insert_effect(s0, s1, key, v1, r1),
            Self::insert_effect(s1, s2, key, v2, r2),
        ensures
            r1 is None,
            r2 == Some(v1),
            s2@.contains_key(key@),
            s2@[key@] == v2,
            s2.size == s0.size + 1,
    {
    }

    /// Absence: a key outside the view is reported absent — `get` and
    /// `contains_key` say so in their own contracts, and removing it
    /// returns nothing and leaves the table unchanged.
    pub proof fn lemma_absent_remove(pre: Self, post: Self, kv: K::V, removed: Option<V>)
        requires
            Self::remove_effect(pre, post, kv, removed),
            !pre@.contains_key(kv),
        ensures
            removed is None,
            post == pre,
    {
    }

    /// Removal: removing a present key returns its value, the key is
    /// then absent and the size drops by exactly one; removing an
    /// absent key returns nothing and changes nothing.
    pub proof fn lemma_removal(pre: Self, post: Self, kv: K::V, removed: Option<V>)
        requires
            Self::remove_effect(pre, post, kv, removed),
        ensures
            removed is Some ==> removed == Some(pre@[kv]) && !post@.contains_key(kv)
                && post.size + 1 == pre.size,
            removed is None ==> post == pre,
    {
    }

    /// Fresh insert: inserting a key the view does not hold returns
    /// None, grows the size by one and adds exactly that binding while
    /// every earlier binding keeps its value. Iterated over N distinct
    /// keys this is resize correctness: however often the table grows
    /// along the way, size reaches N and every key stays observable.
    pub proof fn lemma_insert_fresh(pre: Self, post: Self, key: K, value: V, prev: Option<V>)
        requires
            pre.inv(),
            pre.wf(),
            !pre@.contains_key(key@),
            Self::insert_effect(pre, post, key, value, prev),
        ensures
            prev is None,
            post.wf(),
            post.size == pre.size + 1,
            post@ == pre@.insert(key@, value),
            forall |k2: K::V| #[trigger] pre@.contains_key(k2) ==> post@.contains_key(k2)
                && post@[k2] == (if k2 == key@ { value } else { pre@[k2] }),
    {
    }

    /// Growth shape: the capacity is always the default capacity times
    /// a power of two, and once the stored count passes the load-factor
    /// share of the default capacity, at least one doubling happened.
    pub proof fn lemma_capacity_shape(m: Self)
        requires
            m.inv(),
            LOAD_FACTOR_DENOM * m.size > LOAD_FACTOR_NUMER * DEFAULT_CAPACITY,
        ensures
            exists |d: nat| m.capacity == DEFAULT_CAPACITY * #[trigger] pow2(d),
            m.capacity >= 2 * DEFAULT_CAPACITY,
    {
        let d = choose |d: nat| m.capacity == DEFAULT_CAPACITY * #[trigger] pow2(d);
        if d == 0 {
            lemma2_to64();
            assert(m.capacity == DEFAULT_CAPACITY);
        } else {
            lemma_pow2_unfold(d);
            lemma_pow2_pos((d - 1) as nat);
            assert(pow2(d) >= 2);
            assert(m.capacity >= 2 * DEFAULT_CAPACITY) by (nonlinear_arith)
                requires
                    m.capacity == DEFAULT_CAPACITY * pow2(d),
                    pow2(d) >= 2,
            {
            }
        }
    }
}

} // verus!
