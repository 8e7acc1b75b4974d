//! The guarantees the store gives across operations, each proved
//! from the contracts in `config` and `codec`.  The write / read
//! round trip itself is `codec::lemma_round_trip`.

use vstd::prelude::*;
use vstd::seq_lib::lemma_multiset_commutative;
use crate::chars::eq_fold;
use crate::config::{
    add_entries, find_fold, lemma_find_fold, lemma_sort_by_name, lemma_sort_of_sorted,
    remove_entries, sorted_by_name, spec_should_sort, swap_remove_seq, ConfigV,
};
use crate::person::PersonV;

verus! {

/// Swap-removal keeps every element but the removed one.
proof fn lemma_swap_remove_multiset(s: Seq<PersonV>, i: int)
    requires
        0 <= i < s.len(),
    ensures
        swap_remove_seq(s, i).to_multiset() == s.to_multiset().remove(s[i]),
{
    broadcast use vstd::seq_lib::group_to_multiset_ensures;

    if i == s.len() - 1 {
        assert(swap_remove_seq(s, i) =~= s.remove(i));
    } else {
        let a = s.take(i);
        let b = s.subrange(i + 1, s.len() - 1);
        let l = seq![s.last()];
        assert(swap_remove_seq(s, i) =~= a + (l + b));
        assert(s.remove(i) =~= a + (b + l));
        lemma_multiset_commutative(a, l + b);
        lemma_multiset_commutative(l, b);
        lemma_multiset_commutative(b, l);
        lemma_multiset_commutative(a, b + l);
        assert(swap_remove_seq(s, i).to_multiset() =~= s.remove(i).to_multiset());
    }
}

/// With auto-sort enabled, an add leaves the roster sorted by name,
/// and its elements are the old ones plus the new entry.
pub proof fn law_add_sorted(c: ConfigV, p: PersonV)
    requires
        spec_should_sort(c),
    ensures
        sorted_by_name(add_entries(c, p)),
        add_entries(c, p).to_multiset() == c.entries.to_multiset().insert(p),
{
    broadcast use vstd::seq_lib::group_to_multiset_ensures;

    lemma_sort_by_name(c.entries.push(p));
}

/// With auto-sort enabled, a removal leaves the roster sorted by
/// name.
pub proof fn law_remove_sorted(c: ConfigV, name: Seq<char>)
    requires
        spec_should_sort(c),
    ensures
        sorted_by_name(remove_entries(c, name)),
{
    if find_fold(c.entries, name) == -1 {
        lemma_sort_by_name(c.entries);
    } else {
        lemma_find_fold(c.entries, name);
        lemma_sort_by_name(swap_remove_seq(c.entries, find_fold(c.entries, name)));
    }
}

/// Removing a name that no entry matches, up to ASCII case, keeps
/// every element; and it keeps the order outright, both when
/// auto-sort is off and when the roster was already sorted.
pub proof fn law_remove_absent(c: ConfigV, name: Seq<char>)
    requires
        forall|i: int| 0 <= i < c.entries.len() ==> !eq_fold(#[trigger] c.entries[i].name, name),
    ensures
        remove_entries(c, name).to_multiset() == c.entries.to_multiset(),
        (spec_should_sort(c) ==> sorted_by_name(c.entries)) ==> remove_entries(c, name)
            == c.entries,
{
    lemma_find_fold(c.entries, name);
    assert(find_fold(c.entries, name) == -1);
    if spec_should_sort(c) {
        lemma_sort_by_name(c.entries);
        if sorted_by_name(c.entries) {
            lemma_sort_of_sorted(c.entries);
        }
    }
}

/// Adding an entry and then removing its name, up to ASCII case,
/// gives back exactly the elements the roster had before, provided
/// no earlier entry matched that name.
pub proof fn law_case_insensitive_remove(c: ConfigV, p: PersonV, name: Seq<char>)
    requires
        eq_fold(p.name, name),
        forall|i: int| 0 <= i < c.entries.len() ==> !eq_fold(#[trigger] c.entries[i].name, name),
    ensures
        ({
            let grown = ConfigV { entries: add_entries(c, p), date_fmt: c.date_fmt, sort: c.sort };
            remove_entries(grown, name).to_multiset() == c.entries.to_multiset()
        }),
{
    broadcast use vstd::seq_lib::group_to_multiset_ensures;

    let e1 = add_entries(c, p);
    let grown = ConfigV { entries: e1, date_fmt: c.date_fmt, sort: c.sort };
    assert(e1.to_multiset() == c.entries.to_multiset().insert(p)) by {
        if spec_should_sort(c) {
            lemma_sort_by_name(c.entries.push(p));
        }
    }
    // some entry of the grown roster matches, so the search succeeds
    assert(e1.to_multiset().count(p) > 0) by {
        assert(c.entries.to_multiset().insert(p).count(p) >= 1);
    }
    assert(e1.contains(p));
    lemma_find_fold(e1, name);
    let k = find_fold(e1, name);
    assert(k != -1) by {
        if k == -1 {
            let j = choose|j: int| 0 <= j < e1.len() && e1[j] == p;
            assert(!eq_fold(e1[j].name, name));
        }
    }
    // the matched entry can only be the added one
    assert(e1[k] == p) by {
        if e1[k] != p {
            assert(e1.contains(e1[k]));
            assert(e1.to_multiset().count(e1[k]) > 0);
            assert(c.entries.to_multiset().insert(p).count(e1[k])
                == c.entries.to_multiset().count(e1[k]));
            assert(c.entries.contains(e1[k]));
            let j = choose|j: int| 0 <= j < c.entries.len() && c.entries[j] == e1[k];
            assert(!eq_fold(c.entries[j].name, name));
        }
    }
    lemma_swap_remove_multiset(e1, k);
    assert(swap_remove_seq(e1, k).to_multiset() =~= c.entries.to_multiset());
    if spec_should_sort(grown) {
        lemma_sort_by_name(swap_remove_seq(e1, k));
    }
}

} // verus!
