//! The build-once catalog: category names mapped to ordered item
//! lists, a cached total count, and a flat global ordinal space that
//! addresses every item across all categories.

use vstd::prelude::*;
use crate::text::{lex_le, str_le, lemma_lex_le_refl, lemma_lex_le_total, lemma_lex_le_trans};
use crate::DrawError;

verus! {

/// An opaque handle to a unit of content. The catalog displays the
/// `name` and orders items by their `locator`, which it never
/// interprets further.
#[derive(Debug)]
pub struct Item {
    pub name: String,
    pub locator: String,
}

/// One category: a key and the ordered items filed under it.
#[derive(Debug)]
pub struct CategoryEntry {
    pub name: String,
    pub items: Vec<Item>,
}

/// The immutable category index. Built once by `build_catalog`,
/// read-only afterwards; every method requires `wf()`, which
/// `build_catalog` establishes.
#[derive(Debug)]
pub struct Catalog {
    pub entries: Vec<CategoryEntry>,
    pub total: usize,
}

/// Number of items filed under the first `k` categories.
pub open spec fn prefix_total(s: Seq<CategoryEntry>, k: int) -> int
    decreases k,
{
    if k <= 0 {
        0
    } else {
        prefix_total(s, k - 1) + s[k - 1].items@.len()
    }
}

/// Number of items in the whole catalog, summed over all categories.
pub open spec fn total_items(s: Seq<CategoryEntry>) -> int {
    prefix_total(s, s.len() as int)
}

/// No two categories share a name.
pub open spec fn distinct_names(s: Seq<CategoryEntry>) -> bool {
    forall|i: int, j: int| 0 <= i < j < s.len() ==> s[i].name@ != s[j].name@
}

/// Items stand in lexicographic order of their locators.
pub open spec fn items_sorted(items: Seq<Item>) -> bool {
    forall|i: int, j: int|
        0 <= i < j < items.len() ==> lex_le(items[i].locator@, items[j].locator@)
}

/// `(c, l)` decomposes the global ordinal `i`: local index `l` within
/// category `c`, reached after the items of all earlier categories.
pub open spec fn is_decomposition(s: Seq<CategoryEntry>, i: int, c: int, l: int) -> bool {
    0 <= c < s.len() && 0 <= l < s[c].items@.len() && i == prefix_total(s, c) + l
}

/// The global ordinal `i` addresses local index `local` of some
/// category carrying the name `category`.
pub open spec fn spec_addresses(
    s: Seq<CategoryEntry>,
    i: int,
    category: Seq<char>,
    local: int,
) -> bool {
    exists|c: int| #[trigger] is_decomposition(s, i, c, local) && s[c].name@ == category
}

/// The global ordinal `i` resolves to `item`, found at local index
/// `local` of some category carrying the name `category`.
pub open spec fn spec_resolved(
    s: Seq<CategoryEntry>,
    i: int,
    item: Item,
    category: Seq<char>,
    local: int,
) -> bool {
    exists|c: int|
        #[trigger] is_decomposition(s, i, c, local) && s[c].name@ == category && item == s[c].items@[local]
}

/// Prefix totals never shrink as more categories are counted.
pub proof fn lemma_prefix_total_monotone(s: Seq<CategoryEntry>, k1: int, k2: int)
    requires
        0 <= k1 <= k2,
    ensures
        prefix_total(s, k1) <= prefix_total(s, k2),
    decreases k2,
{
    if k1 < k2 {
        lemma_prefix_total_monotone(s, k1, k2 - 1);
    }
}

/// Two sequences that agree on their first `k` entries count them alike.
pub proof fn lemma_prefix_total_agree(s1: Seq<CategoryEntry>, s2: Seq<CategoryEntry>, k: int)
    requires
        forall|i: int| 0 <= i < k ==> s1[i] == s2[i],
    ensures
        prefix_total(s1, k) == prefix_total(s2, k),
    decreases k,
{
    if k > 0 {
        lemma_prefix_total_agree(s1, s2, k - 1);
    }
}

/// Replacing the entry at `j` shifts every prefix total past `j` by
/// exactly the change in that entry's item count.
pub proof fn lemma_prefix_total_update(s: Seq<CategoryEntry>, j: int, e: CategoryEntry, k: int)
    requires
        0 <= j < s.len(),
        k <= s.len(),
    ensures
        prefix_total(s.update(j, e), k) == prefix_total(s, k) + if j < k {
            e.items@.len() - s[j].items@.len()
        } else {
            0
        },
    decreases k,
{
    if k > 0 {
        lemma_prefix_total_update(s, j, e, k - 1);
    }
}

/// Every ordinal below the total decomposes into some category and
/// local index: the ordinal space covers the whole catalog.
pub proof fn lemma_decomposition_exists(s: Seq<CategoryEntry>, i: int)
    requires
        0 <= i < total_items(s),
    ensures
        exists|c: int, l: int| is_decomposition(s, i, c, l),
{
    lemma_decomposition_from(s, i, 0);
}

proof fn lemma_decomposition_from(s: Seq<CategoryEntry>, i: int, c: int)
    requires
        0 <= c <= s.len(),
        prefix_total(s, c) <= i < total_items(s),
    ensures
        exists|c2: int, l: int| is_decomposition(s, i, c2, l),
    decreases s.len() - c,
{
    if c == s.len() {
        assert(false);
    } else if i < prefix_total(s, c) + s[c].items@.len() {
        let l = i - prefix_total(s, c);
        assert(is_decomposition(s, i, c, l));
    } else {
        lemma_decomposition_from(s, i, c + 1);
    }
}

/// An ordinal decomposes in at most one way: together with
/// `lemma_decomposition_exists`, the ordinal space is a bijection
/// between `[0, total)` and the `(category, local index)` pairs.
pub proof fn lemma_decomposition_unique(
    s: Seq<CategoryEntry>,
    i: int,
    c1: int,
    l1: int,
    c2: int,
    l2: int,
)
    requires
        is_decomposition(s, i, c1, l1),
        is_decomposition(s, i, c2, l2),
    ensures
        c1 == c2,
        l1 == l2,
{
    if c1 < c2 {
        lemma_prefix_total_monotone(s, c1 + 1, c2);
        assert(false);
    }
    if c2 < c1 {
        lemma_prefix_total_monotone(s, c2 + 1, c1);
        assert(false);
    }
}

/// Round trip through the ordinal space: when categories have
/// distinct names, resolving an ordinal `i` to a category name and a
/// local index, and recomputing an ordinal `o` from that name and
/// index, yields `o == i` again.
pub proof fn lemma_ordinal_round_trip(
    s: Seq<CategoryEntry>,
    i: int,
    c: int,
    l: int,
    o: int,
)
    requires
        distinct_names(s),
        is_decomposition(s, i, c, l),
        spec_addresses(s, o, s[c].name@, l),
    ensures
        o == i,
{
    let c2 = choose|c2: int|
        #[trigger] is_decomposition(s, o, c2, l) && s[c2].name@ == s[c].name@;
    assert(c2 == c);
}

/// Reorders items into lexicographic order of their locators,
/// keeping exactly the same items.
fn sort_items(v: Vec<Item>) -> (r: Vec<Item>)
    ensures
        r@.to_multiset() == v@.to_multiset(),
        r@.len() == v@.len(),
        items_sorted(r@),
{
    broadcast use vstd::seq_lib::group_to_multiset_ensures;
    broadcast use vstd::multiset::group_multiset_axioms;

    let mut src = v;
    let mut out: Vec<Item> = Vec::new();
    while src.len() > 0
        invariant
            out@.to_multiset().add(src@.to_multiset()) == v@.to_multiset(),
            out@.len() + src@.len() == v@.len(),
            items_sorted(out@),
            forall|i: int, j: int|
                0 <= i < out@.len() && 0 <= j < src@.len() ==> lex_le(
                    out@[i].locator@,
                    src@[j].locator@,
                ),
        decreases src@.len(),
    {
        let mut m: usize = 0;
        let mut j: usize = 1;
        proof {
            lemma_lex_le_refl(src@[0].locator@);
        }
        while j < src.len()
            invariant
                0 < j <= src@.len(),
                m < j,
                forall|k: int| 0 <= k < j ==> lex_le(src@[m as int].locator@, src@[k].locator@),
            decreases src@.len() - j,
        {
            if str_le(&src[j].locator, &src[m].locator) {
                proof {
                    assert forall|k: int| 0 <= k < j + 1 implies lex_le(
                        src@[j as int].locator@,
                        src@[k].locator@,
                    ) by {
                        if k == j {
                            lemma_lex_le_refl(src@[j as int].locator@);
                        } else {
                            lemma_lex_le_trans(
                                src@[j as int].locator@,
                                src@[m as int].locator@,
                                src@[k].locator@,
                            );
                        }
                    }
                }
                m = j;
            } else {
                proof {
                    lemma_lex_le_total(src@[j as int].locator@, src@[m as int].locator@);
                }
            }
            j = j + 1;
        }
        let ghost pre_out = out@;
        let ghost pre_src = src@;
        let x = src.remove(m);
        out.push(x);
        proof {
            broadcast use vstd::seq_lib::group_to_multiset_ensures;
            broadcast use vstd::multiset::group_multiset_axioms;

            assert(pre_src.remove(m as int).to_multiset() == pre_src.to_multiset().remove(x));
            assert(pre_src.to_multiset().count(x) > 0);
            assert(out@.to_multiset().add(src@.to_multiset()) =~= pre_out.to_multiset().add(
                pre_src.to_multiset(),
            ));
        }
    }
    out
}

/// Finds the position of the entry with the given name, if any.
fn find_entry(entries: &Vec<CategoryEntry>, name: &String) -> (r: Option<usize>)
    ensures
        match r {
            Some(c) => c < entries@.len() && entries@[c as int].name@ == name@,
            None => forall|k: int| 0 <= k < entries@.len() ==> entries@[k].name@ != name@,
        },
{
    let mut c: usize = 0;
    while c < entries.len()
        invariant
            c <= entries@.len(),
            forall|k: int| 0 <= k < c ==> entries@[k].name@ != name@,
        decreases entries@.len() - c,
    {
        if entries[c].name == *name {
            return Some(c);
        }
        c = c + 1;
    }
    None
}

/// Some pair of `pairs`, at position `lo` or later, carries this
/// category name and this item.
pub open spec fn from_pair(
    pairs: Seq<(String, Item)>,
    lo: int,
    name: Seq<char>,
    it: Item,
) -> bool {
    exists|j: int|
        #![trigger pairs[j]]
        lo <= j < pairs.len() && pairs[j].0@ == name && pairs[j].1 == it
}

/// The item is filed in `entries`, under a category carrying this name.
pub open spec fn filed_at(entries: Seq<CategoryEntry>, name: Seq<char>, it: Item) -> bool {
    exists|c: int, k: int|
        #![trigger entries[c].items@[k]]
        0 <= c < entries.len() && 0 <= k < entries[c].items@.len() && entries[c].name@ == name
            && entries[c].items@[k] == it
}

/// Every item filed in `entries` stems from a pair of `pairs` at
/// position `lo` or later: item value and category name both match.
pub open spec fn filed_from(
    entries: Seq<CategoryEntry>,
    pairs: Seq<(String, Item)>,
    lo: int,
) -> bool {
    forall|c: int, k: int|
        #![trigger entries[c].items@[k]]
        0 <= c < entries.len() && 0 <= k < entries[c].items@.len() ==> from_pair(
            pairs,
            lo,
            entries[c].name@,
            entries[c].items@[k],
        )
}

/// Every pair of `pairs` at position `lo` or later is filed in
/// `entries`, under a category carrying its name.
pub open spec fn files_all(
    entries: Seq<CategoryEntry>,
    pairs: Seq<(String, Item)>,
    lo: int,
) -> bool {
    forall|j: int|
        #![trigger pairs[j]]
        lo <= j < pairs.len() ==> filed_at(entries, pairs[j].0@, pairs[j].1)
}

/// Builds the catalog from an externally enumerated list of
/// `(category name, item)` pairs: items are grouped by exact category
/// name, each category is ordered by locator, and the total count is
/// the number of pairs consumed. Every item of the result comes from
/// the input, and every input pair is filed under its category.
#[verifier::rlimit(100)]
pub fn build_catalog(pairs: Vec<(String, Item)>) -> (r: Catalog)
    ensures
        r.wf(),
        r.total == pairs@.len(),
        forall|c: int| 0 <= c < r.entries@.len() ==> (#[trigger] r.entries@[c]).items@.len() > 0,
        filed_from(r.entries@, pairs@, 0),
        files_all(r.entries@, pairs@, 0),
{
    let ghost orig = pairs@;
    let n = pairs.len();
    let mut rest = pairs;
    let mut entries: Vec<CategoryEntry> = Vec::new();
    proof {
        assert(rest@ =~= orig.take(rest@.len() as int));
    }
    while rest.len() > 0
        invariant
            rest@.len() <= orig.len() == n,
            rest@ == orig.take(rest@.len() as int),
            distinct_names(entries@),
            total_items(entries@) == orig.len() - rest@.len(),
            forall|c: int| 0 <= c < entries@.len() ==> (#[trigger] entries@[c]).items@.len() > 0,
            filed_from(entries@, orig, rest@.len() as int),
            files_all(entries@, orig, rest@.len() as int),
        decreases rest@.len(),
    {
        let ghost pre = entries@;
        let ghost pre_lo = rest@.len() as int;
        let p = rest.pop().unwrap();
        proof {
            assert(rest@ =~= orig.take(rest@.len() as int));
            assert(p == orig[rest@.len() as int]);
        }
        let (cat, item) = p;
        let ghost lo = rest@.len() as int;
        match find_entry(&entries, &cat) {
            Some(ci) => {
                let mut e = entries.remove(ci);
                e.items.push(item);
                let ghost e2 = e;
                entries.insert(ci, e);
                proof {
                    assert(entries@ =~= pre.update(ci as int, e2));
                    lemma_prefix_total_update(pre, ci as int, e2, pre.len() as int);
                    assert forall|c: int, k: int|
                        #![trigger entries@[c].items@[k]]
                        0 <= c < entries@.len() && 0 <= k < entries@[c].items@.len() implies
                        from_pair(orig, lo, entries@[c].name@, entries@[c].items@[k]) by {
                        if c == ci as int && k == pre[ci as int].items@.len() {
                            assert(orig[lo].0@ == entries@[c].name@ && orig[lo].1
                                == entries@[c].items@[k]);
                        } else {
                            assert(0 <= c < pre.len() && 0 <= k < pre[c].items@.len());
                            assert(entries@[c].items@[k] == pre[c].items@[k]);
                            assert(from_pair(orig, pre_lo, pre[c].name@, pre[c].items@[k]));
                            let j0 = choose|j: int|
                                pre_lo <= j < orig.len() && (#[trigger] orig[j]).0@ == pre[c].name@
                                    && orig[j].1 == pre[c].items@[k];
                            assert(lo <= j0);
                        }
                    }
                    assert forall|j: int| #![trigger orig[j]] lo <= j < orig.len() implies filed_at(
                        entries@,
                        orig[j].0@,
                        orig[j].1,
                    ) by {
                        if j == lo {
                            assert(entries@[ci as int].items@[pre[ci as int].items@.len() as int]
                                == orig[j].1);
                        } else {
                            assert(filed_at(pre, orig[j].0@, orig[j].1));
                            let (c0, k0) = choose|c0: int, k0: int|
                                #![trigger pre[c0].items@[k0]]
                                0 <= c0 < pre.len() && 0 <= k0 < pre[c0].items@.len()
                                    && pre[c0].name@ == orig[j].0@ && pre[c0].items@[k0]
                                    == orig[j].1;
                            assert(entries@[c0].name@ == pre[c0].name@ && 0 <= k0
                                < entries@[c0].items@.len() && entries@[c0].items@[k0]
                                == pre[c0].items@[k0]);
                        }
                    }
                }
            },
            None => {
                let mut items: Vec<Item> = Vec::new();
                items.push(item);
                entries.push(CategoryEntry { name: cat, items });
                proof {
                    lemma_prefix_total_agree(pre, entries@, pre.len() as int);
                    assert(total_items(entries@) == total_items(pre) + 1);
                    assert forall|c: int, k: int|
                        #![trigger entries@[c].items@[k]]
                        0 <= c < entries@.len() && 0 <= k < entries@[c].items@.len() implies
                        from_pair(orig, lo, entries@[c].name@, entries@[c].items@[k]) by {
                        if c == pre.len() as int {
                            assert(entries@[c].items@.len() == 1);
                            assert(orig[lo].0@ == entries@[c].name@ && orig[lo].1
                                == entries@[c].items@[k]);
                        } else {
                            assert(0 <= c < pre.len() && 0 <= k < pre[c].items@.len());
                            assert(entries@[c].items@[k] == pre[c].items@[k]);
                            assert(from_pair(orig, pre_lo, pre[c].name@, pre[c].items@[k]));
                            let j0 = choose|j: int|
                                pre_lo <= j < orig.len() && (#[trigger] orig[j]).0@ == pre[c].name@
                                    && orig[j].1 == pre[c].items@[k];
                            assert(lo <= j0);
                        }
                    }
                    assert forall|j: int| #![trigger orig[j]] lo <= j < orig.len() implies filed_at(
                        entries@,
                        orig[j].0@,
                        orig[j].1,
                    ) by {
                        if j == lo {
                            assert(entries@[pre.len() as int].items@[0] == orig[j].1);
                        } else {
                            assert(filed_at(pre, orig[j].0@, orig[j].1));
                            let (c0, k0) = choose|c0: int, k0: int|
                                #![trigger pre[c0].items@[k0]]
                                0 <= c0 < pre.len() && 0 <= k0 < pre[c0].items@.len()
                                    && pre[c0].name@ == orig[j].0@ && pre[c0].items@[k0]
                                    == orig[j].1;
                            assert(entries@[c0].name@ == pre[c0].name@ && 0 <= k0
                                < entries@[c0].items@.len() && entries@[c0].items@[k0]
                                == pre[c0].items@[k0]);
                        }
                    }
                }
            },
        }
    }
    let mut c2: usize = 0;
    while c2 < entries.len()
        invariant
            distinct_names(entries@),
            total_items(entries@) == n,
            c2 <= entries@.len(),
            forall|c: int| 0 <= c < entries@.len() ==> (#[trigger] entries@[c]).items@.len() > 0,
            forall|c: int| 0 <= c < c2 ==> items_sorted(#[trigger] entries@[c].items@),
            filed_from(entries@, orig, 0),
            files_all(entries@, orig, 0),
        decreases entries@.len() - c2,
    {
        broadcast use vstd::seq_lib::group_to_multiset_ensures;

        let ghost pre = entries@;
        let e = entries.remove(c2);
        let sorted = sort_items(e.items);
        entries.insert(c2, CategoryEntry { name: e.name, items: sorted });
        proof {
            let e2 = entries@[c2 as int];
            assert(entries@ =~= pre.update(c2 as int, e2));
            lemma_prefix_total_update(pre, c2 as int, e2, pre.len() as int);
            assert forall|c: int, k: int|
                #![trigger entries@[c].items@[k]]
                0 <= c < entries@.len() && 0 <= k < entries@[c].items@.len() implies from_pair(
                orig,
                0,
                entries@[c].name@,
                entries@[c].items@[k],
            ) by {
                if c == c2 as int {
                    assert(pre[c].items@.to_multiset().count(entries@[c].items@[k]) > 0);
                    let k0 = choose|k0: int|
                        0 <= k0 < pre[c].items@.len() && pre[c].items@[k0] == entries@[c].items@[k];
                    assert(from_pair(orig, 0, pre[c].name@, pre[c].items@[k0]));
                } else {
                    assert(0 <= c < pre.len() && 0 <= k < pre[c].items@.len());
                    assert(entries@[c].items@[k] == pre[c].items@[k]);
                    assert(from_pair(orig, 0, pre[c].name@, pre[c].items@[k]));
                }
            }
            assert forall|j: int| #![trigger orig[j]] 0 <= j < orig.len() implies filed_at(
                entries@,
                orig[j].0@,
                orig[j].1,
            ) by {
                assert(filed_at(pre, orig[j].0@, orig[j].1));
                let (c0, k0) = choose|c0: int, k0: int|
                    #![trigger pre[c0].items@[k0]]
                    0 <= c0 < pre.len() && 0 <= k0 < pre[c0].items@.len() && pre[c0].name@
                        == orig[j].0@ && pre[c0].items@[k0] == orig[j].1;
                if c0 == c2 as int {
                    assert(entries@[c0].items@.to_multiset().count(pre[c0].items@[k0]) > 0);
                    let k1 = choose|k1: int|
                        0 <= k1 < entries@[c0].items@.len() && entries@[c0].items@[k1]
                            == pre[c0].items@[k0];
                    assert(entries@[c0].name@ == orig[j].0@ && entries@[c0].items@[k1]
                        == orig[j].1);
                } else {
                    assert(entries@[c0].name@ == pre[c0].name@ && 0 <= k0
                        < entries@[c0].items@.len() && entries@[c0].items@[k0]
                        == pre[c0].items@[k0]);
                }
            }
        }
        c2 = c2 + 1;
    }
    Catalog { entries, total: n }
}

/// Picks an item by its 1-based user-facing position: `Some` exactly
/// when the position falls within the list, holding the item at the
/// 0-based index one below.
pub fn item_at_position(items: &Vec<Item>, position: usize) -> (r: Option<&Item>)
    ensures
        r is Some <==> 1 <= position <= items@.len(),
        r matches Some(it) ==> *it == items@[position - 1],
{
    if 1 <= position && position <= items.len() {
        Some(&items[position - 1])
    } else {
        None
    }
}

impl Catalog {
    /// The catalog's invariant: category names are distinct, every
    /// category's items are sorted by locator, and the cached total
    /// equals the sum of all category lengths.
    pub open spec fn wf(&self) -> bool {
        &&& distinct_names(self.entries@)
        &&& forall|c: int|
            0 <= c < self.entries@.len() ==> items_sorted(#[trigger] self.entries@[c].items@)
        &&& self.total == total_items(self.entries@)
    }

    /// Some category carries this name.
    pub open spec fn spec_has_category(&self, name: Seq<char>) -> bool {
        exists|c: int| 0 <= c < self.entries@.len() && self.entries@[c].name@ == name
    }

    /// Finds the position of the category with the given name, if any.
    fn find_category(&self, name: &String) -> (r: Option<usize>)
        ensures
            match r {
                Some(c) => c < self.entries@.len() && self.entries@[c as int].name@ == name@,
                None => !self.spec_has_category(name@),
            },
    {
        find_entry(&self.entries, name)
    }

    /// Returns the ordered items of the named category, or
    /// `UnknownCategory` exactly when no category carries that name.
    pub fn lookup_category(&self, name: &String) -> (r: Result<&Vec<Item>, DrawError>)
        requires
            self.wf(),
        ensures
            r is Ok <==> self.spec_has_category(name@),
            match r {
                Ok(items) => exists|c: int|
                    0 <= c < self.entries@.len() && (#[trigger] self.entries@[c]).name@ == name@
                        && *items == self.entries@[c].items,
                Err(e) => e == (DrawError::UnknownCategory { name: *name }),
            },
    {
        match self.find_category(name) {
            Some(c) => Ok(&self.entries[c].items),
            None => Err(DrawError::UnknownCategory { name: name.clone() }),
        }
    }

    /// Resolves a global ordinal to the item it addresses, its owning
    /// category's name, and its local index there. Returns
    /// `OrdinalOutOfRange` exactly when the ordinal is at or above the
    /// total count.
    pub fn resolve_global_ordinal(&self, ordinal: usize) -> (r: Result<
        (&Item, &String, usize),
        DrawError,
    >)
        requires
            self.wf(),
        ensures
            r is Ok <==> ordinal < self.total,
            r matches Ok((item, category, local)) ==> spec_resolved(
                self.entries@,
                ordinal as int,
                *item,
                category@,
                local as int,
            ),
            r matches Err(e) ==> e == (DrawError::OrdinalOutOfRange { ordinal, total: self.total }),
    {
        let mut visited: usize = 0;
        let mut c: usize = 0;
        while c < self.entries.len()
            invariant
                self.wf(),
                c <= self.entries@.len(),
                visited == prefix_total(self.entries@, c as int),
                visited <= ordinal,
            decreases self.entries@.len() - c,
        {
            let len = self.entries[c].items.len();
            proof {
                lemma_prefix_total_monotone(self.entries@, c as int + 1, self.entries@.len() as int);
            }
            if ordinal - visited < len {
                let local = ordinal - visited;
                proof {
                    assert(is_decomposition(self.entries@, ordinal as int, c as int, local as int));
                    assert(spec_resolved(
                        self.entries@,
                        ordinal as int,
                        self.entries@[c as int].items@[local as int],
                        self.entries@[c as int].name@,
                        local as int,
                    ));
                }
                return Ok((&self.entries[c].items[local], &self.entries[c].name, local));
            }
            visited = visited + len;
            c = c + 1;
        }
        Err(DrawError::OrdinalOutOfRange { ordinal, total: self.total })
    }

    /// Recomputes the global ordinal addressed by a category name and a
    /// local index, the inverse direction of `resolve_global_ordinal`.
    /// Returns `Some` exactly when the category exists and the local
    /// index falls within it.
    pub fn global_ordinal_of(&self, category: &String, local: usize) -> (r: Option<usize>)
        requires
            self.wf(),
        ensures
            r is Some <==> exists|c: int|
                0 <= c < self.entries@.len() && (#[trigger] self.entries@[c]).name@ == category@
                    && local < self.entries@[c].items@.len(),
            r matches Some(o) ==> o < self.total && spec_addresses(
                self.entries@,
                o as int,
                category@,
                local as int,
            ),
    {
        match self.find_category(category) {
            Some(c) => {
                let mut visited: usize = 0;
                let mut k: usize = 0;
                while k < c
                    invariant
                        self.wf(),
                        c < self.entries@.len(),
                        k <= c,
                        visited == prefix_total(self.entries@, k as int),
                    decreases c - k,
                {
                    proof {
                        lemma_prefix_total_monotone(
                            self.entries@,
                            k as int + 1,
                            self.entries@.len() as int,
                        );
                    }
                    visited = visited + self.entries[k].items.len();
                    k = k + 1;
                }
                if local < self.entries[c].items.len() {
                    proof {
                        lemma_prefix_total_monotone(
                            self.entries@,
                            c as int + 1,
                            self.entries@.len() as int,
                        );
                        assert(is_decomposition(
                            self.entries@,
                            (visited + local) as int,
                            c as int,
                            local as int,
                        ));
                        assert(spec_addresses(
                            self.entries@,
                            (visited + local) as int,
                            self.entries@[c as int].name@,
                            local as int,
                        ));
                    }
                    Some(visited + local)
                } else {
                    proof {
                        if exists|c2: int|
                            0 <= c2 < self.entries@.len() && (#[trigger] self.entries@[c2]).name@
                                == category@ && local < self.entries@[c2].items@.len() {
                            let c2 = choose|c2: int|
                                0 <= c2 < self.entries@.len() && (#[trigger] self.entries@[c2]).name@
                                    == category@ && local < self.entries@[c2].items@.len();
                            assert(c2 == c as int);
                        }
                    }
                    None
                }
            },
            None => None,
        }
    }
}

} // verus!
