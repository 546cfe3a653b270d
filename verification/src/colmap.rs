//! A sparse column of cells, stored in an insertion-ordered map from the
//! `indexmap` crate.  The map is declared opaquely; what it holds is named
//! by `col_entries`, an ordered sequence of (row, cell) pairs with unique
//! row keys, and each operation the grid uses is a small trusted wrapper
//! whose contract states what `indexmap`'s documentation promises.

use vstd::prelude::*;
use crate::cell::Cell;

verus! {

#[verifier::external_type_specification]
#[verifier::external_body]
#[verifier::reject_recursive_types(K)]
#[verifier::reject_recursive_types(V)]
#[verifier::reject_recursive_types(S)]
pub struct ExIndexMap<K, V, S>(indexmap::IndexMap<K, V, S>);

/// The (row, cell) pairs a column map holds, in its iteration order.
pub uninterp spec fn col_entries(m: indexmap::IndexMap<u32, Cell>) -> Seq<(u32, Cell)>;

/// Row keys occur at most once.
pub open spec fn spec_keys_unique(s: Seq<(u32, Cell)>) -> bool {
    forall|i: int, j: int| 0 <= i < j < s.len() ==> (#[trigger] s[i]).0 != (#[trigger] s[j]).0
}

/// Index of the entry with row key `k`, or -1 when absent.
pub open spec fn spec_find_key(s: Seq<(u32, Cell)>, k: u32) -> int
    decreases s.len(),
{
    if s.len() == 0 {
        -1
    } else if s[0].0 == k {
        0
    } else {
        let r = spec_find_key(s.drop_first(), k);
        if r < 0 {
            -1
        } else {
            1 + r
        }
    }
}

/// What the found index means: in range, hitting `k`, and the first hit;
/// -1 means no entry has key `k`.
pub proof fn lemma_find_key_props(s: Seq<(u32, Cell)>, k: u32)
    ensures
        spec_find_key(s, k) >= 0 ==> spec_find_key(s, k) < s.len() && s[spec_find_key(s, k)].0
            == k,
        spec_find_key(s, k) < 0 ==> forall|i: int| 0 <= i < s.len() ==> (#[trigger] s[i]).0 != k,
    decreases s.len(),
{
    if s.len() > 0 && s[0].0 != k {
        lemma_find_key_props(s.drop_first(), k);
        let t = s.drop_first();
        if spec_find_key(t, k) >= 0 {
            assert(s[1 + spec_find_key(t, k)] == t[spec_find_key(t, k)]);
        } else {
            assert forall|i: int| 0 <= i < s.len() implies (#[trigger] s[i]).0 != k by {
                if i > 0 {
                    assert(t[i - 1] == s[i]);
                }
            }
        }
    }
}

/// Relies on `IndexMap::new`: a new map is empty.
#[verifier::external_body]
pub fn cm_new() -> (m: indexmap::IndexMap<u32, Cell>)
    ensures
        col_entries(m) == Seq::<(u32, Cell)>::empty(),
{
    indexmap::IndexMap::new()
}

/// Relies on `IndexMap::len`: the number of entries.
#[verifier::external_body]
pub fn cm_len(m: &indexmap::IndexMap<u32, Cell>) -> (n: usize)
    ensures
        n == col_entries(*m).len(),
{
    m.len()
}

/// Relies on `IndexMap::get`: the value stored under a key, if any.
#[verifier::external_body]
pub fn cm_get<'a>(m: &'a indexmap::IndexMap<u32, Cell>, k: u32) -> (r: Option<&'a Cell>)
    ensures
        (r matches Some(c) ==> spec_find_key(col_entries(*m), k) >= 0 && *c == col_entries(
            *m,
        )[spec_find_key(col_entries(*m), k)].1),
        (r is None ==> spec_find_key(col_entries(*m), k) < 0),
{
    m.get(&k)
}

/// Relies on `IndexMap::insert`: an existing key keeps its place in the
/// order and its value is replaced; a new key is appended last.
#[verifier::external_body]
pub fn cm_insert(m: &mut indexmap::IndexMap<u32, Cell>, k: u32, v: Cell)
    ensures
        spec_keys_unique(col_entries(*final(m))),
        ({
            let s = col_entries(*old(m));
            let i = spec_find_key(s, k);
            col_entries(*final(m)) == (if i >= 0 {
                s.update(i, (k, v))
            } else {
                s.push((k, v))
            })
        }),
{
    m.insert(k, v);
}

/// Relies on `IndexMap::shift_remove`: the entry is removed and the
/// elements after it shift down, keeping their relative order.
#[verifier::external_body]
pub fn cm_shift_remove(m: &mut indexmap::IndexMap<u32, Cell>, k: u32)
    ensures
        spec_keys_unique(col_entries(*final(m))),
        ({
            let s = col_entries(*old(m));
            let i = spec_find_key(s, k);
            col_entries(*final(m)) == (if i >= 0 {
                s.remove(i)
            } else {
                s
            })
        }),
{
    m.shift_remove(&k);
}

/// Relies on `IndexMap::iter`: the entries in order.  The cells are
/// duplicated by their derived `Clone`, which copies every field.
#[verifier::external_body]
pub fn cm_entries(m: &indexmap::IndexMap<u32, Cell>) -> (r: Vec<(u32, Cell)>)
    ensures
        r@ == col_entries(*m),
{
    m.iter().map(|(k, v)| (*k, v.clone())).collect()
}

/// Relies on `IndexMap::clone` (and the cells' derived `Clone`, which
/// copies every field): an equal column in the same order.
#[verifier::external_body]
pub fn cm_clone(m: &indexmap::IndexMap<u32, Cell>) -> (r: indexmap::IndexMap<u32, Cell>)
    ensures
        col_entries(r) == col_entries(*m),
{
    m.clone()
}

} // verus!
