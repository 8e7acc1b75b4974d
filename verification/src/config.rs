//! The configuration store: the ordered roster of people together
//! with the two display settings, and the add / remove / sort
//! operations on it.  Every operation is pinned to a spec-level
//! description, so the effect of any sequence of operations is fully
//! determined.

use vstd::prelude::*;
use vstd::multiset::Multiset;
use vstd::seq_lib::group_seq_properties;
use crate::chars::{eq_fold, eq_fold_exec, lex_le, lex_le_exec, lemma_lex_le_total,
    lemma_lex_le_trans, str_to_chars};
use crate::person::{Person, PersonV};

verus! {

/// The full persisted state: roster entries plus display settings.
/// `date_fmt` is the optional strftime-style format string and
/// `sort` the optional auto-sort switch; an absent switch counts as
/// enabled.
pub struct TomlConfig {
    pub person: Vec<Person>,
    pub date_fmt: Option<Vec<char>>,
    pub sort: Option<bool>,
}

/// The mathematical value of a `TomlConfig`.
pub struct ConfigV {
    pub entries: Seq<PersonV>,
    pub date_fmt: Option<Seq<char>>,
    pub sort: Option<bool>,
}

impl View for TomlConfig {
    type V = ConfigV;

    open spec fn view(&self) -> ConfigV {
        ConfigV {
            entries: self.person.deep_view(),
            date_fmt: match self.date_fmt {
                Some(f) => Some(f@),
                None => None,
            },
            sort: self.sort,
        }
    }
}

/// The default strftime-style format: 24-hour time, UTC offset,
/// abbreviated weekday, month, day and year.
pub open spec fn default_fmt() -> Seq<char> {
    "%H:%M %z    %a %b %d %Y"@
}

/// Builds the default format string.
pub fn default_fmt_chars() -> (r: Vec<char>)
    ensures
        r@ == default_fmt(),
{
    str_to_chars("%H:%M %z    %a %b %d %Y")
}

/// Whether a configuration keeps its entries sorted: an absent
/// switch counts as enabled.
pub open spec fn spec_should_sort(c: ConfigV) -> bool {
    c.sort != Some(false)
}

/// Roster order: one entry comes at or before another when its name
/// does lexicographically.
pub open spec fn person_le(a: PersonV, b: PersonV) -> bool {
    lex_le(a.name, b.name)
}

/// The entries are in ascending name order.
pub open spec fn sorted_by_name(s: Seq<PersonV>) -> bool {
    forall|i: int, j: int|
        0 <= i < j < s.len() ==> person_le(#[trigger] s[i], #[trigger] s[j])
}

/// Stable insertion of `p` into the sorted sequence `s`: `p` lands
/// after every entry whose name is at or before its own.
pub open spec fn insert_sorted(s: Seq<PersonV>, p: PersonV) -> Seq<PersonV>
    decreases s.len(),
{
    if s.len() == 0 {
        seq![p]
    } else if person_le(s.last(), p) {
        s.push(p)
    } else {
        insert_sorted(s.drop_last(), p).push(s.last())
    }
}

/// Stable insertion sort by name: the order every mutation
/// re-establishes when auto-sort is enabled.
pub open spec fn sort_by_name(s: Seq<PersonV>) -> Seq<PersonV>
    decreases s.len(),
{
    if s.len() == 0 {
        Seq::empty()
    } else {
        insert_sorted(sort_by_name(s.drop_last()), s.last())
    }
}

/// The index of the first entry whose name equals `name` up to ASCII
/// case, or -1 when there is none.
pub open spec fn find_fold(s: Seq<PersonV>, name: Seq<char>) -> int
    decreases s.len(),
{
    if s.len() == 0 {
        -1
    } else if eq_fold(s[0].name, name) {
        0
    } else if find_fold(s.drop_first(), name) == -1 {
        -1
    } else {
        find_fold(s.drop_first(), name) + 1
    }
}

/// Removal by swapping with the last entry and truncating.
pub open spec fn swap_remove_seq(s: Seq<PersonV>, i: int) -> Seq<PersonV> {
    s.update(i, s.last()).drop_last()
}

/// The roster after an add: append, then re-sort when auto-sort is
/// enabled.
pub open spec fn add_entries(c: ConfigV, p: PersonV) -> Seq<PersonV> {
    if spec_should_sort(c) {
        sort_by_name(c.entries.push(p))
    } else {
        c.entries.push(p)
    }
}

/// The roster after a removal: drop the first case-insensitive match
/// if there is one, then re-sort when auto-sort is enabled.
pub open spec fn remove_entries(c: ConfigV, name: Seq<char>) -> Seq<PersonV> {
    let after = if find_fold(c.entries, name) == -1 {
        c.entries
    } else {
        swap_remove_seq(c.entries, find_fold(c.entries, name))
    };
    if spec_should_sort(c) {
        sort_by_name(after)
    } else {
        after
    }
}

/// `find_fold` returns -1 exactly when no entry matches, and
/// otherwise the first matching index.
pub proof fn lemma_find_fold(s: Seq<PersonV>, name: Seq<char>)
    ensures
        find_fold(s, name) == -1 ==> forall|i: int|
            0 <= i < s.len() ==> !eq_fold(#[trigger] s[i].name, name),
        find_fold(s, name) != -1 ==> {
            &&& 0 <= find_fold(s, name) < s.len()
            &&& eq_fold(s[find_fold(s, name)].name, name)
            &&& forall|i: int|
                0 <= i < find_fold(s, name) ==> !eq_fold(#[trigger] s[i].name, name)
        },
    decreases s.len(),
{
    if s.len() > 0 && !eq_fold(s[0].name, name) {
        lemma_find_fold(s.drop_first(), name);
        assert(forall|i: int|
            1 <= i < s.len() ==> s.drop_first()[i - 1] == #[trigger] s[i]);
    }
}

/// Inserting into a sorted sequence keeps it sorted, adds the new
/// entry to the elements, and grows the length by one.
pub proof fn lemma_insert_sorted(s: Seq<PersonV>, p: PersonV)
    requires
        sorted_by_name(s),
    ensures
        sorted_by_name(insert_sorted(s, p)),
        insert_sorted(s, p).to_multiset() == s.to_multiset().insert(p),
        insert_sorted(s, p).len() == s.len() + 1,
    decreases s.len(),
{
    broadcast use vstd::seq_lib::group_to_multiset_ensures;

    if s.len() == 0 {
        assert(seq![p] =~= Seq::empty().push(p));
        assert(Seq::<PersonV>::empty().to_multiset() =~= Multiset::empty());
    } else if person_le(s.last(), p) {
        assert forall|i: int, j: int|
            0 <= i < j < s.push(p).len() implies person_le(
            #[trigger] s.push(p)[i],
            #[trigger] s.push(p)[j],
        ) by {
            if j < s.len() {
            } else {
                if i < s.len() - 1 {
                    lemma_lex_le_trans(s[i].name, s.last().name, p.name);
                }
            }
        }
    } else {
        let d = s.drop_last();
        assert(sorted_by_name(d)) by {
            assert(forall|i: int| 0 <= i < d.len() ==> d[i] == #[trigger] s[i]);
        }
        lemma_insert_sorted(d, p);
        let t = insert_sorted(d, p);
        // every element of t is at or before p or comes from d
        assert forall|i: int, j: int|
            0 <= i < j < t.push(s.last()).len() implies person_le(
            #[trigger] t.push(s.last())[i],
            #[trigger] t.push(s.last())[j],
        ) by {
            if j < t.len() {
            } else {
                lemma_insert_sorted_elems(d, p, i);
                if t[i] == p {
                    lemma_lex_le_total(s.last().name, p.name);
                } else {
                    let k = choose|k: int| 0 <= k < d.len() && d[k] == t[i];
                    assert(person_le(s[k], s.last()));
                }
            }
        }
        assert(d.push(s.last()) =~= s);
        assert(t.push(s.last()).to_multiset() =~= s.to_multiset().insert(p));
    }
}

/// Every element of an insertion result is the inserted entry or one
/// of the original elements.
proof fn lemma_insert_sorted_elems(s: Seq<PersonV>, p: PersonV, i: int)
    requires
        0 <= i < insert_sorted(s, p).len(),
    ensures
        insert_sorted(s, p)[i] == p || exists|k: int|
            0 <= k < s.len() && s[k] == insert_sorted(s, p)[i],
    decreases s.len(),
{
    if s.len() == 0 {
    } else if person_le(s.last(), p) {
        if i < s.len() {
            assert(s.push(p)[i] == s[i]);
        }
    } else {
        let t = insert_sorted(s.drop_last(), p);
        if i < t.len() {
            lemma_insert_sorted_elems(s.drop_last(), p, i);
            if t[i] != p {
                let k = choose|k: int| 0 <= k < s.drop_last().len() && s.drop_last()[k] == t[i];
                assert(s[k] == t[i]);
            }
        } else {
            assert(t.push(s.last())[i] == s.last());
            assert(s[s.len() - 1] == s.last());
        }
    }
}

/// Where the insertion lands: at the first index whose entry's name
/// comes strictly after the new one.
pub proof fn lemma_insert_sorted_at(s: Seq<PersonV>, p: PersonV, idx: int)
    requires
        sorted_by_name(s),
        0 <= idx <= s.len(),
        forall|j: int| 0 <= j < idx ==> person_le(#[trigger] s[j], p),
        idx < s.len() ==> !person_le(s[idx], p),
    ensures
        insert_sorted(s, p) == s.insert(idx, p),
    decreases s.len(),
{
    if s.len() == 0 {
        assert(insert_sorted(s, p) =~= s.insert(0, p));
    } else if idx == s.len() {
        assert(person_le(s.last(), p));
        assert(s.push(p) =~= s.insert(idx, p));
    } else {
        // the last entry also comes strictly after p
        assert(!person_le(s.last(), p)) by {
            if idx < s.len() - 1 {
                lemma_lex_le_total(s[idx].name, p.name);
                if person_le(s.last(), p) {
                    assert(person_le(s[idx], s.last()));
                    lemma_lex_le_trans(s[idx].name, s.last().name, p.name);
                }
            }
        }
        let d = s.drop_last();
        assert(sorted_by_name(d)) by {
            assert(forall|i: int| 0 <= i < d.len() ==> d[i] == #[trigger] s[i]);
        }
        lemma_insert_sorted_at(d, p, idx);
        assert(d.insert(idx, p).push(s.last()) =~= s.insert(idx, p));
    }
}

/// Sorting sorts, keeps the elements, and keeps the length.
pub proof fn lemma_sort_by_name(s: Seq<PersonV>)
    ensures
        sorted_by_name(sort_by_name(s)),
        sort_by_name(s).to_multiset() == s.to_multiset(),
        sort_by_name(s).len() == s.len(),
    decreases s.len(),
{
    broadcast use vstd::seq_lib::group_to_multiset_ensures;

    if s.len() == 0 {
    } else {
        lemma_sort_by_name(s.drop_last());
        lemma_insert_sorted(sort_by_name(s.drop_last()), s.last());
        assert(s.drop_last().push(s.last()) =~= s);
        assert(sort_by_name(s).to_multiset() =~= s.to_multiset());
    }
}

/// Sorting an already sorted sequence changes nothing.
pub proof fn lemma_sort_of_sorted(s: Seq<PersonV>)
    requires
        sorted_by_name(s),
    ensures
        sort_by_name(s) == s,
    decreases s.len(),
{
    if s.len() > 0 {
        let d = s.drop_last();
        assert(sorted_by_name(d)) by {
            assert(forall|i: int| 0 <= i < d.len() ==> d[i] == #[trigger] s[i]);
        }
        lemma_sort_of_sorted(d);
        assert(forall|j: int| 0 <= j < d.len() ==> person_le(#[trigger] d[j], s.last()));
        lemma_insert_sorted_at(d, s.last(), d.len() as int);
        assert(d.insert(d.len() as int, s.last()) =~= s);
    }
}

impl TomlConfig {
    /// The default configuration: no entries, the default format
    /// string, auto-sort enabled.
    pub fn empty() -> (c: TomlConfig)
        ensures
            c@.entries == Seq::<PersonV>::empty(),
            c@.date_fmt == Some(default_fmt()),
            c@.sort == Some(true),
    {
        let c = TomlConfig {
            person: Vec::new(),
            date_fmt: Some(default_fmt_chars()),
            sort: Some(true),
        };
        proof {
            assert(c@.entries =~= Seq::<PersonV>::empty());
        }
        c
    }

    /// Whether mutations and listings keep the roster sorted; an
    /// absent switch counts as enabled.
    pub fn should_sort(&self) -> (r: bool)
        ensures
            r == spec_should_sort(self@),
    {
        match self.sort {
            Some(true) => true,
            Some(false) => false,
            None => true,
        }
    }

    /// Sorts the roster by name, stably and in ascending order.
    pub fn sort(&mut self)
        ensures
            final(self)@.entries == sort_by_name(old(self)@.entries),
            final(self)@.date_fmt == old(self)@.date_fmt,
            final(self)@.sort == old(self)@.sort,
    {
        broadcast use group_seq_properties;

        let ghost orig: Seq<PersonV> = self.person.deep_view();
        let mut out: Vec<Person> = Vec::new();
        proof {
            assert(out.deep_view() =~= sort_by_name(orig.take(0)));
            assert(self.person.deep_view() =~= orig.skip(0));
        }
        while self.person.len() > 0
            invariant
                self.person.deep_view() == orig.skip(
                    orig.len() - self.person.deep_view().len(),
                ),
                out.deep_view() == sort_by_name(
                    orig.take(orig.len() - self.person.deep_view().len()),
                ),
                self.person.deep_view().len() <= orig.len(),
                sorted_by_name(out.deep_view()),
                self.date_fmt == old(self).date_fmt,
                self.sort == old(self).sort,
            decreases self.person.len(),
        {
            let ghost k: int = orig.len() - self.person.deep_view().len();
            let ghost pre: Seq<Person> = self.person@;
            let p = self.person.remove(0);
            proof {
                assert forall|i2: int|
                    0 <= i2 < self.person.deep_view().len() implies self.person.deep_view()[i2]
                    == orig.skip(k + 1)[i2] by {
                    assert(self.person.deep_view()[i2] == self.person@[i2].deep_view());
                    assert(pre.remove(0)[i2] == pre[i2 + 1]);
                    assert(pre[i2 + 1].deep_view() == orig.skip(k)[i2 + 1]);
                }
                assert(self.person.deep_view() =~= orig.skip(k + 1));
                assert(p.deep_view() == orig.skip(k)[0]);
                assert(p@ == orig[k]);
            }
            let idx = insert_position(&out, &p);
            proof {
                lemma_insert_sorted_at(out.deep_view(), p@, idx as int);
                lemma_insert_sorted(out.deep_view(), p@);
                assert(orig.take(k + 1).drop_last() =~= orig.take(k));
                assert(orig.take(k + 1).last() == orig[k]);
            }
            out.insert(idx, p);
            proof {
                assert(out.deep_view() =~= sort_by_name(orig.take(k + 1)));
            }
        }
        proof {
            assert(orig.take(orig.len() as int) =~= orig);
        }
        self.person = out;
    }

    /// Appends a person and, when auto-sort is enabled, re-sorts.
    pub fn add(&mut self, p: Person)
        ensures
            final(self)@.entries == add_entries(old(self)@, p@),
            final(self)@.date_fmt == old(self)@.date_fmt,
            final(self)@.sort == old(self)@.sort,
            spec_should_sort(old(self)@) ==> sorted_by_name(final(self)@.entries),
    {
        let ghost before: ConfigV = self@;
        self.person.push(p);
        proof {
            assert(self.person.deep_view() =~= before.entries.push(p@));
        }
        if self.should_sort() {
            self.sort();
            proof {
                lemma_sort_by_name(before.entries.push(p@));
            }
        }
    }

    /// Removes the first entry whose name matches up to ASCII case,
    /// by swapping it with the last entry and truncating; when no
    /// entry matches, the roster is left alone.  When auto-sort is
    /// enabled the roster is re-sorted either way.
    pub fn remove(&mut self, name: &str)
        ensures
            final(self)@.entries == remove_entries(old(self)@, name@),
            final(self)@.date_fmt == old(self)@.date_fmt,
            final(self)@.sort == old(self)@.sort,
            spec_should_sort(old(self)@) ==> sorted_by_name(final(self)@.entries),
    {
        let ghost before: ConfigV = self@;
        let target = str_to_chars(name);
        let found = self.find_index(&target);
        match found {
            Some(idx) => {
                self.person.swap_remove(idx);
                proof {
                    assert(self.person.deep_view() =~= swap_remove_seq(
                        before.entries,
                        idx as int,
                    ));
                }
            },
            None => {},
        }
        if self.should_sort() {
            self.sort();
            proof {
                if found is Some {
                    lemma_sort_by_name(swap_remove_seq(before.entries, found->0 as int));
                } else {
                    lemma_sort_by_name(before.entries);
                }
            }
        }
    }

    /// Finds the first case-insensitive match for `target`.
    fn find_index(&self, target: &Vec<char>) -> (r: Option<usize>)
        ensures
            match r {
                Some(i) => 0 <= i < self@.entries.len() && find_fold(self@.entries, target@)
                    == i as int,
                None => find_fold(self@.entries, target@) == -1,
            },
    {
        let n = self.person.len();
        let mut i: usize = 0;
        while i < n
            invariant
                n == self@.entries.len(),
                i <= n,
                forall|j: int| 0 <= j < i ==> !eq_fold(#[trigger] self@.entries[j].name, target@),
            decreases n - i,
        {
            if eq_fold_exec(&self.person[i].name, target) {
                proof {
                    lemma_find_fold_prefix(self@.entries, target@, i as int);
                }
                return Some(i);
            }
            i += 1;
        }
        proof {
            lemma_find_fold(self@.entries, target@);
            if find_fold(self@.entries, target@) != -1 {
                let k = find_fold(self@.entries, target@);
                assert(!eq_fold(self@.entries[k].name, target@));
            }
        }
        None
    }
}

/// The index where a stable insertion of `p` into the sorted roster
/// `out` lands: just before the first entry whose name comes
/// strictly after `p`'s.
fn insert_position(out: &Vec<Person>, p: &Person) -> (idx: usize)
    requires
        sorted_by_name(out.deep_view()),
    ensures
        idx <= out.deep_view().len(),
        forall|j: int| 0 <= j < idx ==> person_le(#[trigger] out.deep_view()[j], p@),
        idx < out.deep_view().len() ==> !person_le(out.deep_view()[idx as int], p@),
{
    let n = out.len();
    let mut i: usize = 0;
    while i < n
        invariant
            n == out.deep_view().len(),
            i <= n,
            forall|j: int| 0 <= j < i ==> person_le(#[trigger] out.deep_view()[j], p@),
        decreases n - i,
    {
        if !lex_le_exec(&out[i].name, &p.name) {
            return i;
        }
        i += 1;
    }
    n
}

/// When the first `i` entries do not match and entry `i` does, the
/// first match is at `i`.
proof fn lemma_find_fold_prefix(s: Seq<PersonV>, name: Seq<char>, i: int)
    requires
        0 <= i < s.len(),
        eq_fold(s[i].name, name),
        forall|j: int| 0 <= j < i ==> !eq_fold(#[trigger] s[j].name, name),
    ensures
        find_fold(s, name) == i,
    decreases i,
{
    if i > 0 {
        assert(!eq_fold(s[0].name, name));
        lemma_find_fold_prefix(s.drop_first(), name, i - 1);
        assert(forall|j: int|
            0 <= j < s.drop_first().len() ==> s.drop_first()[j] == #[trigger] s[j + 1]);
    }
}

} // verus!
