//! Keyed tree nodes in two storage flavors, for comparing map-backed and
//! list-backed child lookup on the same random key material.

use vstd::prelude::*;

use std::collections::HashMap;

verus! {

/// A tree node whose children live in a hash map keyed by name.
pub struct TreeNodeHashMap {
    pub value: i32,
    pub children: HashMap<String, TreeNodeHashMap>,
}

/// Shorthand for the two conditions vstd's hash-map model rests on; it is
/// not established for `String` keys, so every map-backed contract holds
/// under it.
pub open spec fn string_hash_model() -> bool {
    vstd::std_specs::hash::obeys_key_model::<String>()
        && vstd::std_specs::hash::builds_valid_hashers::<std::collections::hash_map::RandomState>()
}

impl TreeNodeHashMap {
    pub fn new(value: i32) -> (r: TreeNodeHashMap)
        ensures
            r.value == value,
            r.children@ == Map::<String, TreeNodeHashMap>::empty(),
    {
        TreeNodeHashMap { value, children: HashMap::new() }
    }

    /// Inserts a child; under vstd's hash-map key model the map gains (or
    /// overwrites) exactly this entry.
    pub fn add_child(&mut self, key: String, child: TreeNodeHashMap)
        ensures
            string_hash_model() ==> final(self).children@ == old(self).children@.insert(
                key,
                child,
            ),
            final(self).value == old(self).value,
    {
        self.children.insert(key, child);
    }

    /// Looks a child up; under vstd's key model the answer is exactly the
    /// stored entry.
    pub fn get_child(&self, key: &str) -> (r: Option<&TreeNodeHashMap>)
        ensures
            string_hash_model() ==> (match r {
                Some(c) => vstd::std_specs::hash::maps_borrowed_key_to_value(
                    self.children@,
                    key,
                    *c,
                ),
                None => !vstd::std_specs::hash::contains_borrowed_key(self.children@, key),
            }),
    {
        self.children.get(key)
    }
}

/// A tree node whose children live in a vector of (name, node) pairs.
pub struct TreeNodeVec {
    pub value: i32,
    pub children: Vec<(String, TreeNodeVec)>,
}

impl TreeNodeVec {
    pub fn new(value: i32) -> (r: TreeNodeVec)
        ensures
            r.value == value,
            r.children@.len() == 0,
    {
        TreeNodeVec { value, children: Vec::new() }
    }

    /// Appends the pair at the end: duplicate keys are kept, earlier pairs
    /// and the node's own value are untouched.
    pub fn add_child(&mut self, key: String, child: TreeNodeVec)
        ensures
            final(self).children@ == old(self).children@.push((key, child)),
            final(self).value == old(self).value,
    {
        self.children.push((key, child));
    }

    /// First child stored under the given key, by linear scan: `Some` is
    /// the earliest pair with this key (all pairs before it differ), and
    /// `None` means no pair carries it.
    pub fn get_child(&self, key: &str) -> (r: Option<&TreeNodeVec>)
        ensures
            (match r {
                Some(c) => exists|i: int|
                    0 <= i < self.children@.len() && (#[trigger] self.children@[i]).0@ == key@
                        && *c == self.children@[i].1 && (forall|j: int|
                        0 <= j < i ==> (#[trigger] self.children@[j]).0@ != key@),
                None => forall|i: int|
                    0 <= i < self.children@.len() ==> (#[trigger] self.children@[i]).0@ != key@,
            }),
    {
        let owned: String = key.to_owned();
        let n = self.children.len();
        let mut i: usize = 0;
        while i < n
            invariant
                i <= n,
                n == self.children@.len(),
                owned@ == key@,
                forall|k: int| 0 <= k < i ==> (#[trigger] self.children@[k]).0@ != key@,
            decreases n - i,
        {
            if self.children[i].0 == owned {
                proof {
                    assert(self.children@[i as int].0@ == key@);
                }
                return Some(&self.children[i].1);
            }
            i += 1;
        }
        None
    }
}

/// Relies on rand::random_range: the result lies in the half-open range it
/// is given (the range must be non-empty, or the call panics).
#[verifier::external_body]
fn random_index(bound: usize) -> (r: usize)
    requires
        bound >= 1,
    ensures
        r < bound,
{
    rand::random_range(0..bound)
}

/// A random lowercase string of the given length.
pub fn generate_random_string(len: usize) -> (r: String)
    ensures
        r@.len() <= len,
{
    let alphabet = "abcdefghijklmnopqrstuvwxyz";
    let ab: &[u8] = alphabet.as_bytes();
    let mut bytes_out: Vec<u8> = Vec::new();
    let mut i: usize = 0;
    while i < len
        invariant
            i <= len,
            bytes_out@.len() == i,
        decreases len - i,
    {
        if ab.len() > 0 {
            let k = random_index(ab.len());
            bytes_out.push(ab[k]);
        } else {
            bytes_out.push(97);
        }
        i += 1;
    }
    chars_from_bytes(bytes_out)
}

/// Relies on String::from_utf8_lossy / char conversion: turns bytes into a
/// string of at most as many characters.
#[verifier::external_body]
fn chars_from_bytes(bytes: Vec<u8>) -> (r: String)
    ensures
        r@.len() <= bytes@.len(),
{
    String::from_utf8_lossy(&bytes).into_owned()
}

/// Random key lists: one list per level, level `l` holding
/// `max_children ^ l` keys of up to ten characters each.
pub fn generate_keys(levels: usize, max_children: usize) -> (r: Vec<Vec<String>>)
    requires
        forall|i: int|
            0 <= i < levels ==> #[trigger] vstd::arithmetic::power::pow(
                max_children as int,
                i as nat,
            ) <= usize::MAX as int,
    ensures
        r@.len() == levels,
        forall|i: int|
            0 <= i < levels ==> (#[trigger] r@[i])@.len() == vstd::arithmetic::power::pow(
                max_children as int,
                i as nat,
            ),
        forall|i: int, j: int|
            0 <= i < levels && 0 <= j < r@[i]@.len() ==> (#[trigger] r@[i]@[j])@.len() <= 10,
{
    let mut keys: Vec<Vec<String>> = Vec::new();
    let mut level: usize = 0;
    while level < levels
        invariant
            level <= levels,
            keys@.len() == level,
            forall|i: int|
                0 <= i < levels ==> #[trigger] vstd::arithmetic::power::pow(
                    max_children as int,
                    i as nat,
                ) <= usize::MAX as int,
            forall|i: int|
                0 <= i < level ==> (#[trigger] keys@[i])@.len() == vstd::arithmetic::power::pow(
                    max_children as int,
                    i as nat,
                ),
            forall|i: int, j: int|
                0 <= i < level && 0 <= j < keys@[i]@.len() ==> (#[trigger] keys@[i]@[j])@.len()
                    <= 10,
        decreases levels - level,
    {
        let count = pow_usize(max_children, level);
        let mut level_keys: Vec<String> = Vec::new();
        let mut k: usize = 0;
        while k < count
            invariant
                k <= count,
                level_keys@.len() == k,
                forall|j: int| 0 <= j < k ==> (#[trigger] level_keys@[j])@.len() <= 10,
            decreases count - k,
        {
            level_keys.push(generate_random_string(10));
            k += 1;
        }
        keys.push(level_keys);
        level += 1;
    }
    keys
}

/// `base ^ exp`, exact: the caller rules overflow out.
fn pow_usize(base: usize, exp: usize) -> (r: usize)
    requires
        forall|i: int|
            0 <= i <= exp ==> #[trigger] vstd::arithmetic::power::pow(base as int, i as nat)
                <= usize::MAX as int,
    ensures
        r == vstd::arithmetic::power::pow(base as int, exp as nat),
{
    proof {
        vstd::arithmetic::power::lemma_pow0(base as int);
    }
    let mut r: usize = 1;
    let mut e: usize = 0;
    while e < exp
        invariant
            e <= exp,
            r == vstd::arithmetic::power::pow(base as int, e as nat),
            forall|i: int|
                0 <= i <= exp ==> #[trigger] vstd::arithmetic::power::pow(base as int, i as nat)
                    <= usize::MAX as int,
        decreases exp - e,
    {
        proof {
            vstd::arithmetic::power::lemma_pow_adds(base as int, e as nat, 1);
            vstd::arithmetic::power::lemma_pow1(base as int);
            assert(vstd::arithmetic::power::pow(base as int, (e + 1) as nat)
                == vstd::arithmetic::power::pow(base as int, e as nat) * (base as int));
        }
        r = r * base;
        e += 1;
    }
    r
}

/// Shape of the list-backed tree the builder returns: at each level below
/// `levels` one child per key of that level, in key-list order with
/// duplicates kept, and the node's value naming its level.
pub open spec fn vec_tree_built(
    r: TreeNodeVec,
    keys: Seq<Vec<String>>,
    levels: usize,
    level: usize,
) -> bool
    decreases levels - level,
{
    &&& r.value == level as i32
    &&& if level >= levels {
        r.children@.len() == 0
    } else {
        &&& r.children@.len() == keys[level as int]@.len()
        &&& forall|k: int|
            0 <= k < r.children@.len() ==> (#[trigger] r.children@[k]).0 == keys[level as int]@[k]
                && vec_tree_built(r.children@[k].1, keys, levels, (level + 1) as usize)
    }
}

/// Shape of the map-backed tree, under vstd's hash-map key model: at each
/// level below `levels` the children's key set is exactly the set of that
/// level's keys (duplicates collapse), each child of the next level's
/// shape.
pub open spec fn hashmap_tree_built(
    r: TreeNodeHashMap,
    keys: Seq<Vec<String>>,
    levels: usize,
    level: usize,
) -> bool
    decreases levels - level,
{
    &&& r.value == level as i32
    &&& if level >= levels {
        r.children@ == Map::<String, TreeNodeHashMap>::empty()
    } else {
        &&& r.children@.dom() == keys[level as int]@.to_set()
        &&& forall|s: String| #[trigger]
            r.children@.dom().contains(s) ==> hashmap_tree_built(
                r.children@[s],
                keys,
                levels,
                (level + 1) as usize,
            )
    }
}


/// The two storage flavors agree. Trees of the two shapes built from the
/// same key lists expose the same keys at each level (duplicates collapse
/// in the map but stay separate pairs in the list), the nodes reached
/// under one key carry equal value fields, and each child is again of its
/// flavor's shape one level down -- so the agreement extends along any
/// chain of lookups. Holds under vstd's hash-map key model, as every
/// map-backed contract does.
pub proof fn lemma_tree_flavors_agree(
    tv: TreeNodeVec,
    th: TreeNodeHashMap,
    keys: Seq<Vec<String>>,
    levels: usize,
    level: usize,
    s: String,
)
    requires
        string_hash_model(),
        vec_tree_built(tv, keys, levels, level),
        hashmap_tree_built(th, keys, levels, level),
        level < levels,
    ensures
        tv.value == th.value,
        (exists|k: int| 0 <= k < tv.children@.len() && (#[trigger] tv.children@[k]).0 == s)
            <==> th.children@.dom().contains(s),
        forall|k: int|
            0 <= k < tv.children@.len() && (#[trigger] tv.children@[k]).0 == s ==> vec_tree_built(
                tv.children@[k].1,
                keys,
                levels,
                (level + 1) as usize,
            ),
        th.children@.dom().contains(s) ==> hashmap_tree_built(
            th.children@[s],
            keys,
            levels,
            (level + 1) as usize,
        ),
        forall|k: int|
            0 <= k < tv.children@.len() && (#[trigger] tv.children@[k]).0 == s
                && th.children@.dom().contains(s) ==> tv.children@[k].1.value
                == th.children@[s].value,
{
    let ks = keys[level as int]@;
    assert(th.children@.dom() == ks.to_set());
    if exists|k: int| 0 <= k < tv.children@.len() && (#[trigger] tv.children@[k]).0 == s {
        let k = choose|k: int| 0 <= k < tv.children@.len() && (#[trigger] tv.children@[k]).0 == s;
        assert(ks[k] == s);
        assert(ks.contains(s));
        assert(ks.to_set().contains(s));
    }
    if th.children@.dom().contains(s) {
        assert(ks.to_set().contains(s));
        assert(ks.contains(s));
        let k = choose|k: int| 0 <= k < ks.len() && ks[k] == s;
        assert(tv.children@[k].0 == s);
        assert(hashmap_tree_built(th.children@[s], keys, levels, (level + 1) as usize));
        assert forall|k2: int|
            0 <= k2 < tv.children@.len() && (#[trigger] tv.children@[k2]).0
                == s implies tv.children@[k2].1.value == th.children@[s].value by {
            assert(vec_tree_built(tv.children@[k2].1, keys, levels, (level + 1) as usize));
        }
    }
}

/// The set of the first `k + 1` list elements is the set of the first `k`
/// plus the element at `k`.
proof fn lemma_prefix_to_set_step(ks: Seq<String>, k: int)
    requires
        0 <= k < ks.len(),
    ensures
        ks.take(k + 1).to_set() == ks.take(k).to_set().insert(ks[k]),
{
    assert(ks.take(k + 1) =~= ks.take(k).push(ks[k]));
    Seq::<String>::lemma_push_to_set_commute(ks.take(k), ks[k]);
}

/// Builds the map-backed tree: at each level below `levels`, one child per
/// key of that level.
pub fn build_tree_hashmap(keys: &Vec<Vec<String>>, levels: usize, current_level: usize) -> (r:
    TreeNodeHashMap)
    requires
        levels <= keys@.len(),
        current_level <= levels,
    ensures
        r.value == current_level as i32,
        string_hash_model() ==> hashmap_tree_built(r, keys@, levels, current_level),
    decreases levels - current_level,
{
    let mut node = TreeNodeHashMap::new(current_level as i32);
    if current_level < levels {
        let level_keys = &keys[current_level];
        let n = level_keys.len();
        let mut k: usize = 0;
        while k < n
            invariant
                k <= n,
                n == level_keys@.len(),
                level_keys@ == keys@[current_level as int]@,
                levels <= keys@.len(),
                current_level < levels,
                node.value == current_level as i32,
                string_hash_model() ==> node.children@.dom() == level_keys@.take(
                    k as int,
                ).to_set(),
                string_hash_model() ==> forall|s: String| #[trigger]
                    node.children@.dom().contains(s) ==> hashmap_tree_built(
                        node.children@[s],
                        keys@,
                        levels,
                        (current_level + 1) as usize,
                    ),
            decreases n - k,
        {
            let ghost dom0 = node.children@.dom();
            let child = build_tree_hashmap(keys, levels, current_level + 1);
            node.add_child(level_keys[k].clone(), child);
            proof {
                if string_hash_model() {
                    lemma_prefix_to_set_step(level_keys@, k as int);
                    assert(node.children@.dom() =~= dom0.insert(level_keys@[k as int]));
                }
            }
            k += 1;
        }
        proof {
            if string_hash_model() {
                assert(level_keys@.take(n as int) =~= level_keys@);
            }
        }
    } else {
        proof {
            assert(node.children@ =~= Map::<String, TreeNodeHashMap>::empty());
        }
    }
    node
}

/// Builds the list-backed tree the same way; duplicates in the key lists
/// stay separate pairs.
pub fn build_tree_vec(keys: &Vec<Vec<String>>, levels: usize, current_level: usize) -> (r:
    TreeNodeVec)
    requires
        levels <= keys@.len(),
        current_level <= levels,
    ensures
        r.value == current_level as i32,
        vec_tree_built(r, keys@, levels, current_level),
    decreases levels - current_level,
{
    let mut node = TreeNodeVec::new(current_level as i32);
    if current_level < levels {
        let level_keys = &keys[current_level];
        let n = level_keys.len();
        let mut k: usize = 0;
        while k < n
            invariant
                k <= n,
                n == level_keys@.len(),
                level_keys@ == keys@[current_level as int]@,
                levels <= keys@.len(),
                current_level < levels,
                node.value == current_level as i32,
                node.children@.len() == k,
                forall|j: int|
                    0 <= j < k ==> (#[trigger] node.children@[j]).0 == level_keys@[j]
                        && vec_tree_built(
                        node.children@[j].1,
                        keys@,
                        levels,
                        (current_level + 1) as usize,
                    ),
            decreases n - k,
        {
            let child = build_tree_vec(keys, levels, current_level + 1);
            node.add_child(level_keys[k].clone(), child);
            k += 1;
        }
    }
    node
}

} // verus!
