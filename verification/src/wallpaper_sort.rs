//! Shared "filter + sort" pipeline for wallpaper entries.
//!
//! The list a user browses and the step to the next wallpaper must agree on
//! what "the wallpaper after this one" means, so both take their order from
//! here.
use crate::table::{ItemKey, Table};
use crate::text;
use vstd::prelude::*;

verus! {

/// What the database records of one item.
#[derive(Debug, Clone, Copy)]
pub struct ItemMeta {
    pub size: Option<i64>,
    pub modified_at: Option<i64>,
}

/// Recorded metadata by library path and item path.
pub type DbMetaMap = Table<ItemKey, ItemMeta>;

/// One wallpaper of the snapshot. `relative` is the path of its resource
/// below `library_root`, where it has one.
#[derive(Debug)]
pub struct WallpaperEntry {
    pub id: String,
    pub name: String,
    pub wp_type: String,
    pub size: Option<i64>,
    pub library_root: String,
    pub relative: Option<String>,
}

/// What a rule orders by.
#[derive(Debug, Clone, Copy, PartialEq, Eq, Structural)]
pub enum WallpaperSortKey {
    Unspecified,
    Name,
    WpType,
    Size,
    LastModified,
}

/// Which way a rule orders.
#[derive(Debug, Clone, Copy, PartialEq, Eq, Structural)]
pub enum SortDirection {
    Unspecified,
    Asc,
    Desc,
}

/// One rule. A number on the wire that names no key or no direction arrives
/// here as `None`.
#[derive(Debug, Clone, Copy)]
pub struct WallpaperSortRule {
    pub key: Option<WallpaperSortKey>,
    pub direction: Option<SortDirection>,
}

// ---------------------------------------------------------------------------
// Rows: what the rules see of an entry
// ---------------------------------------------------------------------------

/// The values that the rules compare.
pub struct RowView {
    pub name: Seq<char>,
    pub wp_type: Seq<char>,
    pub size: i64,
    pub modified: i64,
}

/// The values that the rules compare, ready for sorting. `name` is in lower
/// case.
#[derive(Debug)]
pub struct SortRow {
    pub name: Vec<char>,
    pub wp_type: Vec<char>,
    pub size: i64,
    pub modified: i64,
}

impl View for SortRow {
    type V = RowView;

    open spec fn view(&self) -> RowView {
        RowView {
            name: self.name@,
            wp_type: self.wp_type@,
            size: self.size,
            modified: self.modified,
        }
    }
}

/// What the database records of an entry, if anything.
pub open spec fn meta_of(
    e: &WallpaperEntry,
    meta: Map<(Seq<char>, Seq<char>), ItemMeta>,
) -> Option<ItemMeta> {
    match e.relative {
        Some(rel) => if meta.contains_key((e.library_root@, rel@)) {
            Some(meta[(e.library_root@, rel@)])
        } else {
            None
        },
        None => None,
    }
}

/// The recorded size, else the entry's own, else zero.
pub open spec fn size_of_entry(e: &WallpaperEntry, m: Option<ItemMeta>) -> i64 {
    match m {
        Some(ItemMeta { size: Some(s), .. }) => s,
        _ => match e.size {
            Some(s) => s,
            None => 0,
        },
    }
}

/// The recorded time of modification, else zero.
pub open spec fn modified_of_entry(m: Option<ItemMeta>) -> i64 {
    match m {
        Some(ItemMeta { modified_at: Some(t), .. }) => t,
        _ => 0,
    }
}

/// The row of an entry whose name reads `lowered` in lower case.
pub open spec fn row_of(
    e: &WallpaperEntry,
    lowered: Seq<char>,
    meta: Map<(Seq<char>, Seq<char>), ItemMeta>,
) -> RowView {
    RowView {
        name: lowered,
        wp_type: e.wp_type@,
        size: size_of_entry(e, meta_of(e, meta)),
        modified: modified_of_entry(meta_of(e, meta)),
    }
}

/// Whether `a` comes before `b` by `key`, ascending.
pub open spec fn key_before(key: WallpaperSortKey, a: RowView, b: RowView) -> bool {
    match key {
        WallpaperSortKey::Unspecified => false,
        WallpaperSortKey::Name => text::text_before(a.name, b.name),
        WallpaperSortKey::WpType => text::text_before(a.wp_type, b.wp_type),
        WallpaperSortKey::Size => a.size < b.size,
        WallpaperSortKey::LastModified => a.modified < b.modified,
    }
}

/// The key by which a rule orders; a rule without one has no effect.
pub open spec fn active_key(rule: WallpaperSortRule) -> Option<WallpaperSortKey> {
    match rule.key {
        Some(k) => if k == WallpaperSortKey::Unspecified {
            None
        } else {
            Some(k)
        },
        None => None,
    }
}

/// Whether `a` comes before `b` by one rule. Only `Desc` turns the order
/// round.
pub open spec fn rule_before(rule: WallpaperSortRule, a: RowView, b: RowView) -> bool {
    match active_key(rule) {
        Some(k) => if rule.direction == Some(SortDirection::Desc) {
            key_before(k, b, a)
        } else {
            key_before(k, a, b)
        },
        None => false,
    }
}

/// Whether `a` comes before `b` by all rules: the first rule is the primary
/// key, and each later one decides what those before it leave open.
pub open spec fn rows_before(rules: Seq<WallpaperSortRule>, a: RowView, b: RowView) -> bool
    decreases rules.len(),
{
    if rules.len() == 0 {
        false
    } else {
        ||| rule_before(rules.first(), a, b)
        ||| !rule_before(rules.first(), b, a) && rows_before(rules.skip(1), a, b)
    }
}

/// `perm` names each of the first `n` places once.
pub open spec fn is_arrangement(perm: Seq<usize>, n: nat) -> bool {
    &&& perm.len() == n
    &&& forall|i: int| 0 <= i < n ==> #[trigger] perm[i] < n
    &&& forall|i: int, j: int| 0 <= i < j < n ==> perm[i] != perm[j]
}

/// `perm` puts `rows` in the order of the rules, and rows that the rules do
/// not tell apart stay in the order they had.
pub open spec fn is_rule_order(
    perm: Seq<usize>,
    rows: Seq<RowView>,
    rules: Seq<WallpaperSortRule>,
) -> bool {
    &&& is_arrangement(perm, rows.len())
    &&& forall|i: int, j: int|
        0 <= i < j < perm.len() ==> !rows_before(rules, rows[perm[j] as int], rows[perm[i] as int])
            && (rows_before(rules, rows[#[trigger] perm[i] as int], rows[#[trigger] perm[j] as int])
            || perm[i] < perm[j])
}

// ---------------------------------------------------------------------------
// The order is a strict weak order
// ---------------------------------------------------------------------------

/// By one key, "does not come after" is transitive.
proof fn lemma_key_weak(key: WallpaperSortKey, a: RowView, b: RowView, c: RowView)
    requires
        !key_before(key, b, a),
        !key_before(key, c, b),
    ensures
        !key_before(key, c, a),
{
    match key {
        WallpaperSortKey::Name => lemma_text_weak(a.name, b.name, c.name),
        WallpaperSortKey::WpType => lemma_text_weak(a.wp_type, b.wp_type, c.wp_type),
        _ => {},
    }
}

proof fn lemma_text_weak(a: Seq<char>, b: Seq<char>, c: Seq<char>)
    requires
        !text::text_before(b, a),
        !text::text_before(c, b),
    ensures
        !text::text_before(c, a),
{
    text::lemma_text_total(a, b);
    text::lemma_text_total(b, c);
    if text::text_before(c, a) {
        if a == b || b == c {
        } else {
            text::lemma_text_transitive(a, b, c);
            text::lemma_text_transitive(a, c, a);
            text::lemma_text_irreflexive(a);
        }
    }
}

proof fn lemma_key_asymmetric(key: WallpaperSortKey, a: RowView, b: RowView)
    ensures
        !(key_before(key, a, b) && key_before(key, b, a)),
{
    match key {
        WallpaperSortKey::Name => {
            if text::text_before(a.name, b.name) && text::text_before(b.name, a.name) {
                text::lemma_text_transitive(a.name, b.name, a.name);
                text::lemma_text_irreflexive(a.name);
            }
        },
        WallpaperSortKey::WpType => {
            if text::text_before(a.wp_type, b.wp_type) && text::text_before(b.wp_type, a.wp_type) {
                text::lemma_text_transitive(a.wp_type, b.wp_type, a.wp_type);
                text::lemma_text_irreflexive(a.wp_type);
            }
        },
        _ => {},
    }
}

proof fn lemma_rule_weak(rule: WallpaperSortRule, a: RowView, b: RowView, c: RowView)
    requires
        !rule_before(rule, b, a),
        !rule_before(rule, c, b),
    ensures
        !rule_before(rule, c, a),
{
    if let Some(k) = active_key(rule) {
        if rule.direction == Some(SortDirection::Desc) {
            lemma_key_weak(k, c, b, a);
        } else {
            lemma_key_weak(k, a, b, c);
        }
    }
}

proof fn lemma_rule_asymmetric(rule: WallpaperSortRule, a: RowView, b: RowView)
    ensures
        !(rule_before(rule, a, b) && rule_before(rule, b, a)),
{
    if let Some(k) = active_key(rule) {
        lemma_key_asymmetric(k, a, b);
    }
}

// ---------------------------------------------------------------------------
// Sorting
// ---------------------------------------------------------------------------

/// Decides [`rule_before`].
fn comes_first(rule: &WallpaperSortRule, a: &SortRow, b: &SortRow) -> (yes: bool)
    ensures
        yes == rule_before(*rule, a@, b@),
{
    let (x, y) = match rule.direction {
        Some(SortDirection::Desc) => (b, a),
        _ => (a, b),
    };
    match rule.key {
        Some(WallpaperSortKey::Name) => text::comes_before(&x.name, &y.name),
        Some(WallpaperSortKey::WpType) => text::comes_before(&x.wp_type, &y.wp_type),
        Some(WallpaperSortKey::Size) => x.size < y.size,
        Some(WallpaperSortKey::LastModified) => x.modified < y.modified,
        _ => false,
    }
}

/// Place `x` goes before place `y`: by the rules, and where these leave it
/// open, by number.
spec fn place_before(
    rules: Seq<WallpaperSortRule>,
    rows: Seq<RowView>,
    x: usize,
    y: usize,
) -> bool
    decreases rules.len(),
{
    if rules.len() == 0 {
        x < y
    } else {
        ||| rule_before(rules.first(), rows[x as int], rows[y as int])
        ||| !rule_before(rules.first(), rows[y as int], rows[x as int]) && place_before(
            rules.skip(1),
            rows,
            x,
            y,
        )
    }
}

proof fn lemma_place_before(rules: Seq<WallpaperSortRule>, rows: Seq<RowView>, x: usize, y: usize)
    ensures
        place_before(rules, rows, x, y) <==> {
            ||| rows_before(rules, rows[x as int], rows[y as int])
            ||| !rows_before(rules, rows[y as int], rows[x as int]) && x < y
        },
        !(rows_before(rules, rows[x as int], rows[y as int]) && rows_before(
            rules,
            rows[y as int],
            rows[x as int],
        )),
    decreases rules.len(),
{
    if rules.len() > 0 {
        lemma_rule_asymmetric(rules.first(), rows[x as int], rows[y as int]);
        lemma_place_before(rules.skip(1), rows, x, y);
    }
}

/// Every place in `s` goes before those after it.
spec fn in_order(s: Seq<usize>, rules: Seq<WallpaperSortRule>, rows: Seq<RowView>) -> bool {
    forall|i: int, j: int|
        0 <= i < j < s.len() ==> place_before(rules, rows, #[trigger] s[i], #[trigger] s[j])
}

/// Every place in `s` goes before every place in `t`.
spec fn all_before(
    s: Seq<usize>,
    t: Seq<usize>,
    rules: Seq<WallpaperSortRule>,
    rows: Seq<RowView>,
) -> bool {
    forall|i: int, j: int|
        0 <= i < s.len() && 0 <= j < t.len() ==> place_before(
            rules,
            rows,
            #[trigger] s[i],
            #[trigger] t[j],
        )
}

spec fn row_views(rows: Seq<SortRow>) -> Seq<RowView> {
    Seq::new(rows.len(), |i: int| rows[i]@)
}

spec fn places_valid(s: Seq<usize>, n: nat) -> bool {
    forall|i: int| 0 <= i < s.len() ==> #[trigger] s[i] < n
}

/// Merges two runs that are in order by the first rule and the rest, where
/// the rest puts all of `left` before all of `right`.
fn merge(
    left: &Vec<usize>,
    right: &Vec<usize>,
    rows: &Vec<SortRow>,
    rule: &WallpaperSortRule,
    rules: Ghost<Seq<WallpaperSortRule>>,
) -> (out: Vec<usize>)
    requires
        rules@.len() > 0,
        rules@.first() == *rule,
        places_valid(left@, rows@.len()),
        places_valid(right@, rows@.len()),
        in_order(left@, rules@, row_views(rows@)),
        in_order(right@, rules@, row_views(rows@)),
        all_before(left@, right@, rules@.skip(1), row_views(rows@)),
    ensures
        places_valid(out@, rows@.len()),
        in_order(out@, rules@, row_views(rows@)),
        out@.to_multiset() == left@.to_multiset().add(right@.to_multiset()),
{
    let ghost rv = row_views(rows@);
    let ghost rest = rules@.skip(1);
    let mut out: Vec<usize> = Vec::new();
    let mut i: usize = 0;
    let mut j: usize = 0;
    proof {
        assert(left@.take(0) =~= Seq::<usize>::empty());
        assert(right@.take(0) =~= Seq::<usize>::empty());
        broadcast use vstd::seq_lib::group_to_multiset_ensures;
        assert(out@.to_multiset() =~= left@.take(0).to_multiset().add(
            right@.take(0).to_multiset(),
        ));
    }
    while i < left.len() || j < right.len()
        invariant
            i <= left.len(),
            j <= right.len(),
            rules@.len() > 0,
            rules@.first() == *rule,
            rest == rules@.skip(1),
            rv == row_views(rows@),
            places_valid(left@, rows@.len()),
            places_valid(right@, rows@.len()),
            in_order(left@, rules@, rv),
            in_order(right@, rules@, rv),
            all_before(left@, right@, rest, rv),
            places_valid(out@, rows@.len()),
            in_order(out@, rules@, rv),
            all_before(out@, left@.skip(i as int), rules@, rv),
            all_before(out@, right@.skip(j as int), rules@, rv),
            out@.to_multiset() == left@.take(i as int).to_multiset().add(
                right@.take(j as int).to_multiset(),
            ),
        decreases left.len() - i + right.len() - j,
    {
        let take_right: bool = if i == left.len() {
            true
        } else if j == right.len() {
            false
        } else {
            comes_first(rule, &rows[right[j]], &rows[left[i]])
        };
        let ghost before = out@;
        if take_right {
            let b: usize = right[j];
            out.push(b);
            proof {
                assert forall|k: int| i <= k < left@.len() implies place_before(
                    rules@,
                    rv,
                    b,
                    #[trigger] left@[k],
                ) by {
                    let a = left@[i as int];
                    let c = left@[k];
                    if k > i {
                        assert(place_before(rules@, rv, a, c));
                        lemma_rule_asymmetric(*rule, rv[a as int], rv[c as int]);
                        if !rule_before(*rule, rv[b as int], rv[c as int]) {
                            lemma_rule_weak(*rule, rv[a as int], rv[c as int], rv[b as int]);
                        }
                    }
                }
                assert forall|k: int| 0 <= k < right@.skip(j + 1).len() implies place_before(
                    rules@,
                    rv,
                    b,
                    #[trigger] right@.skip(j + 1)[k],
                ) by {
                    assert(right@[j as int] == b && right@[j + 1 + k] == right@.skip(j + 1)[k]);
                }
                assert(right@.skip(j as int)[0] == b);
                assert forall|k: int, m: int|
                    0 <= k < before.len() && 0 <= m < right@.skip(j + 1).len() implies place_before(
                    rules@,
                    rv,
                    #[trigger] before[k],
                    #[trigger] right@.skip(j + 1)[m],
                ) by {
                    assert(right@.skip(j as int)[m + 1] == right@.skip(j + 1)[m]);
                }
                assert(right@.take(j + 1) =~= right@.take(j as int).push(b));
                lemma_push_multiset(before, b);
                lemma_push_multiset(right@.take(j as int), b);
                assert(out@.to_multiset() =~= left@.take(i as int).to_multiset().add(
                    right@.take(j + 1).to_multiset(),
                ));
            }
            j += 1;
        } else {
            let a: usize = left[i];
            out.push(a);
            proof {
                assert forall|k: int| j <= k < right@.len() implies place_before(
                    rules@,
                    rv,
                    a,
                    #[trigger] right@[k],
                ) by {
                    let b = right@[j as int];
                    let c = right@[k];
                    assert(place_before(rest, rv, a, c));
                    assert(!rule_before(*rule, rv[b as int], rv[a as int]));
                    if k > j {
                        assert(place_before(rules@, rv, b, c));
                        lemma_rule_asymmetric(*rule, rv[b as int], rv[c as int]);
                        lemma_rule_weak(*rule, rv[a as int], rv[b as int], rv[c as int]);
                    }
                }
                assert forall|k: int| 0 <= k < left@.skip(i + 1).len() implies place_before(
                    rules@,
                    rv,
                    a,
                    #[trigger] left@.skip(i + 1)[k],
                ) by {
                    assert(left@[i as int] == a && left@[i + 1 + k] == left@.skip(i + 1)[k]);
                }
                assert(left@.skip(i as int)[0] == a);
                assert forall|k: int, m: int|
                    0 <= k < before.len() && 0 <= m < left@.skip(i + 1).len() implies place_before(
                    rules@,
                    rv,
                    #[trigger] before[k],
                    #[trigger] left@.skip(i + 1)[m],
                ) by {
                    assert(left@.skip(i as int)[m + 1] == left@.skip(i + 1)[m]);
                }
                assert(left@.take(i + 1) =~= left@.take(i as int).push(a));
                lemma_push_multiset(before, a);
                lemma_push_multiset(left@.take(i as int), a);
                assert(out@.to_multiset() =~= left@.take(i + 1).to_multiset().add(
                    right@.take(j as int).to_multiset(),
                ));
            }
            i += 1;
        }
    }
    assert(left@.take(i as int) =~= left@);
    assert(right@.take(j as int) =~= right@);
    out
}

proof fn lemma_push_multiset(s: Seq<usize>, x: usize)
    ensures
        s.push(x).to_multiset() == s.to_multiset().insert(x),
{
    broadcast use vstd::seq_lib::group_to_multiset_ensures;

}

/// Sorts the places from `from` to `to` by one more rule, keeping the order
/// they are in wherever that rule leaves it open.
fn sort_run(
    order: &Vec<usize>,
    from: usize,
    to: usize,
    rows: &Vec<SortRow>,
    rule: &WallpaperSortRule,
    rules: Ghost<Seq<WallpaperSortRule>>,
) -> (out: Vec<usize>)
    requires
        from <= to <= order@.len(),
        rules@.len() > 0,
        rules@.first() == *rule,
        places_valid(order@, rows@.len()),
        in_order(order@, rules@.skip(1), row_views(rows@)),
    ensures
        places_valid(out@, rows@.len()),
        in_order(out@, rules@, row_views(rows@)),
        out@.to_multiset() == order@.subrange(from as int, to as int).to_multiset(),
    decreases to - from,
{
    let ghost part = order@.subrange(from as int, to as int);
    if to - from <= 1 {
        let mut out: Vec<usize> = Vec::new();
        if from < to {
            out.push(order[from]);
        }
        assert(out@ =~= part);
        return out;
    }
    let mid: usize = from + (to - from) / 2;
    let left: Vec<usize> = sort_run(order, from, mid, rows, rule, rules);
    let right: Vec<usize> = sort_run(order, mid, to, rows, rule, rules);
    proof {
        let l = order@.subrange(from as int, mid as int);
        let r = order@.subrange(mid as int, to as int);
        assert forall|i: int, j: int|
            0 <= i < left@.len() && 0 <= j < right@.len() implies place_before(
            rules@.skip(1),
            row_views(rows@),
            #[trigger] left@[i],
            #[trigger] right@[j],
        ) by {
            broadcast use vstd::seq_lib::group_to_multiset_ensures;

            assert(left@.to_multiset().count(left@[i]) > 0);
            assert(right@.to_multiset().count(right@[j]) > 0);
            assert(l.contains(left@[i]));
            assert(r.contains(right@[j]));
            let x = l.index_of(left@[i]);
            let y = r.index_of(right@[j]);
            assert(order@[from + x] == left@[i]);
            assert(order@[mid + y] == right@[j]);
        }
        assert(part =~= l + r);
        vstd::seq_lib::lemma_multiset_commutative(l, r);
    }
    merge(&left, &right, rows, rule, rules)
}

/// The order in which the rules put the rows, as a list of places. Rules are
/// applied from the last to the first, each keeping what it leaves open, so
/// that the first one ends up as the primary key.
pub fn order_rows(rows: &Vec<SortRow>, rules: &[WallpaperSortRule]) -> (perm: Vec<usize>)
    ensures
        is_rule_order(perm@, Seq::new(rows@.len(), |i: int| rows@[i]@), rules@),
{
    let ghost rv = row_views(rows@);
    let ghost n = rows@.len();
    let mut order: Vec<usize> = Vec::new();
    let mut i: usize = 0;
    while i < rows.len()
        invariant
            i <= rows@.len(),
            order@.len() == i,
            forall|k: int| 0 <= k < i ==> #[trigger] order@[k] == k,
        decreases rows@.len() - i,
    {
        order.push(i);
        i += 1;
    }
    let mut left: usize = rules.len();
    assert(rules@.skip(left as int) =~= Seq::<WallpaperSortRule>::empty());
    while left > 0
        invariant
            left <= rules@.len(),
            n == rows@.len(),
            rv == row_views(rows@),
            is_arrangement(order@, n),
            in_order(order@, rules@.skip(left as int), rv),
        decreases left,
    {
        left -= 1;
        let rule: WallpaperSortRule = rules[left];
        let active: bool = match rule.key {
            Some(WallpaperSortKey::Unspecified) => false,
            Some(_) => true,
            None => false,
        };
        let ghost now = rules@.skip(left as int);
        assert(now.skip(1) =~= rules@.skip(left + 1));
        if active {
            let sorted: Vec<usize> = sort_run(&order, 0, order.len(), rows, &rule, Ghost(now));
            proof {
                assert(order@.subrange(0, order@.len() as int) =~= order@);
                lemma_same_arrangement(order@, sorted@, n);
            }
            order = sorted;
        } else {
            assert forall|a: int, b: int| 0 <= a < b < order@.len() implies place_before(
                now,
                rv,
                #[trigger] order@[a],
                #[trigger] order@[b],
            ) by {
                assert(place_before(now.skip(1), rv, order@[a], order@[b]));
            }
        }
    }
    assert(rules@.skip(0) =~= rules@);
    proof {
        assert forall|a: int, b: int| 0 <= a < b < order@.len() implies !rows_before(
            rules@,
            rv[order@[b] as int],
            rv[order@[a] as int],
        ) && (rows_before(
            rules@,
            rv[#[trigger] order@[a] as int],
            rv[#[trigger] order@[b] as int],
        ) || order@[a] < order@[b]) by {
            lemma_place_before(rules@, rv, order@[a], order@[b]);
        }
    }
    order
}

proof fn lemma_same_arrangement(a: Seq<usize>, b: Seq<usize>, n: nat)
    requires
        is_arrangement(a, n),
        a.to_multiset() == b.to_multiset(),
    ensures
        is_arrangement(b, n),
{
    broadcast use vstd::seq_lib::group_to_multiset_ensures;

    assert(a.no_duplicates());
    a.lemma_multiset_has_no_duplicates();
    assert(b.len() == b.to_multiset().len());
    assert forall|i: int| 0 <= i < n implies #[trigger] b[i] < n by {
        assert(b.to_multiset().count(b[i]) > 0);
        assert(a.contains(b[i]));
    }
    assert forall|i: int, j: int| 0 <= i < j < n implies b[i] != b[j] by {
        if b[i] == b[j] {
            lemma_twice(b, i, j);
            assert(a.to_multiset().contains(b[i]));
        }
    }
}

/// A value at two places is counted at least twice.
proof fn lemma_twice(s: Seq<usize>, i: int, j: int)
    requires
        0 <= i < j < s.len(),
        s[i] == s[j],
    ensures
        s.to_multiset().count(s[i]) >= 2,
{
    let l = s.take(j);
    let r = s.skip(j);
    assert(s =~= l + r);
    vstd::seq_lib::lemma_multiset_commutative(l, r);
    broadcast use vstd::seq_lib::group_to_multiset_ensures;

    assert(l[i] == s[i] && l.contains(s[i]));
    assert(r[0] == s[i] && r.contains(s[i]));
    assert(l.to_multiset().count(s[i]) > 0);
    assert(r.to_multiset().count(s[i]) > 0);
}

// ---------------------------------------------------------------------------
// Entries
// ---------------------------------------------------------------------------

/// What `str::to_lowercase` returns: a function of the text alone.
pub uninterp spec fn lowercase(s: Seq<char>) -> Seq<char>;

/// `str::to_lowercase`: the lower case equivalent of `s` by the Unicode
/// tables, which are not stated here; the result is named [`lowercase`].
#[verifier::external_body]
fn to_lowercase(s: &str) -> (lowered: String)
    ensures
        lowered@ == lowercase(s@),
{
    s.to_lowercase()
}

/// The row of an entry whose name reads `lowered` in lower case.
pub fn sort_row(e: &WallpaperEntry, lowered: &str, db_meta_map: &DbMetaMap) -> (row: SortRow)
    requires
        db_meta_map.wf(),
    ensures
        row@ == row_of(e, lowered@, db_meta_map@),
{
    let found: Option<ItemMeta> = match &e.relative {
        Some(rel) => {
            let key = ItemKey { root: e.library_root.clone(), path: rel.clone() };
            match db_meta_map.get(&key) {
                Some(m) => Some(*m),
                None => None,
            }
        },
        None => None,
    };
    let size: i64 = match found {
        Some(ItemMeta { size: Some(s), .. }) => s,
        _ => match e.size {
            Some(s) => s,
            None => 0,
        },
    };
    let modified: i64 = match found {
        Some(ItemMeta { modified_at: Some(t), .. }) => t,
        _ => 0,
    };
    SortRow {
        name: text::chars_of(lowered),
        wp_type: text::chars_of(e.wp_type.as_str()),
        size,
        modified,
    }
}

/// The rows of a list of entries.
pub open spec fn entry_rows(
    entries: Seq<&WallpaperEntry>,
    meta: Map<(Seq<char>, Seq<char>), ItemMeta>,
) -> Seq<RowView> {
    Seq::new(entries.len(), |i: int| row_of(entries[i], lowercase(entries[i].name@), meta))
}

/// `out` is `entries` in the order of the rules; entries that the rules do
/// not tell apart stay in the order they had.
pub open spec fn is_sorted_version(
    out: Seq<&WallpaperEntry>,
    entries: Seq<&WallpaperEntry>,
    rules: Seq<WallpaperSortRule>,
    meta: Map<(Seq<char>, Seq<char>), ItemMeta>,
) -> bool {
    exists|perm: Seq<usize>| #[trigger]
        is_rule_order(perm, entry_rows(entries, meta), rules) && out == Seq::new(
            entries.len(),
            |i: int| entries[perm[i] as int],
        )
}

/// Applies composite sort rules in place. The first rule is the primary key;
/// entries equal under all rules keep their order.
pub fn apply_wallpaper_sorts(
    entries: &mut [&WallpaperEntry],
    sorts: &[WallpaperSortRule],
    db_meta_map: &DbMetaMap,
)
    requires
        db_meta_map.wf(),
    ensures
        is_sorted_version(final(entries)@, old(entries)@, sorts@, db_meta_map@),
{
    let ghost input = entries@;
    let mut rows: Vec<SortRow> = Vec::new();
    let mut i: usize = 0;
    while i < entries.len()
        invariant
            i <= entries@.len(),
            entries@ == input,
            db_meta_map.wf(),
            rows@.len() == i,
            forall|k: int|
                0 <= k < i ==> #[trigger] rows@[k]@ == row_of(
                    input[k],
                    lowercase(input[k].name@),
                    db_meta_map@,
                ),
        decreases entries@.len() - i,
    {
        let e: &WallpaperEntry = entries[i];
        let lowered: String = to_lowercase(e.name.as_str());
        rows.push(sort_row(e, lowered.as_str(), db_meta_map));
        i += 1;
    }
    let perm: Vec<usize> = order_rows(&rows, sorts);
    let ghost rv = entry_rows(input, db_meta_map@);
    assert(Seq::new(rows@.len(), |k: int| rows@[k]@) =~= rv);
    let mut out: Vec<&WallpaperEntry> = Vec::new();
    let mut j: usize = 0;
    while j < perm.len()
        invariant
            j <= perm@.len(),
            entries@ == input,
            is_arrangement(perm@, input.len()),
            out@.len() == j,
            forall|k: int| 0 <= k < j ==> #[trigger] out@[k] == input[perm@[k] as int],
        decreases perm@.len() - j,
    {
        out.push(entries[perm[j]]);
        j += 1;
    }
    assert(out@ =~= Seq::new(input.len(), |k: int| input[perm@[k] as int]));
    let mut k: usize = 0;
    while k < out.len()
        invariant
            k <= out@.len(),
            out@.len() == entries@.len(),
            forall|m: int| 0 <= m < k ==> #[trigger] entries@[m] == out@[m],
        decreases out@.len() - k,
    {
        entries[k] = out[k];
        k += 1;
    }
    assert(entries@ =~= out@);
}

/// The keys of the items that a filter matched.
pub type ItemKeySet = Table<ItemKey, ()>;

/// Whether an entry passes: without a filter all do, with one those whose
/// path below their library is among the matched keys.
pub open spec fn is_visible(
    e: &WallpaperEntry,
    matched: Option<Set<(Seq<char>, Seq<char>)>>,
) -> bool {
    match matched {
        Some(keys) => match e.relative {
            Some(rel) => keys.contains((e.library_root@, rel@)),
            None => false,
        },
        None => true,
    }
}

/// The entries that pass, in the order of the snapshot.
pub open spec fn visible_entries<'a>(
    entries: Seq<WallpaperEntry>,
    matched: Option<Set<(Seq<char>, Seq<char>)>>,
) -> Seq<&'a WallpaperEntry>
    decreases entries.len(),
{
    if entries.len() == 0 {
        Seq::empty()
    } else {
        let head = visible_entries(entries.drop_last(), matched);
        if is_visible(&entries.last(), matched) {
            head.push(&entries.last())
        } else {
            head
        }
    }
}

/// The keys behind an optional filter result.
pub open spec fn matched_set(matched: &Option<ItemKeySet>) -> Option<
    Set<(Seq<char>, Seq<char>)>,
> {
    match matched {
        Some(keys) => Some(keys@.dom()),
        None => None,
    }
}

/// `ids` are the ids of `entries`, one for one.
pub open spec fn are_ids_of(ids: Seq<String>, entries: Seq<&WallpaperEntry>) -> bool {
    &&& ids.len() == entries.len()
    &&& forall|i: int| 0 <= i < ids.len() ==> (#[trigger] ids[i])@ == entries[i].id@
}

/// `ids` name the visible entries of the snapshot in the order of the rules.
pub open spec fn is_visible_order(
    ids: Seq<String>,
    entries: Seq<WallpaperEntry>,
    matched: Option<Set<(Seq<char>, Seq<char>)>>,
    rules: Seq<WallpaperSortRule>,
    meta: Map<(Seq<char>, Seq<char>), ItemMeta>,
) -> bool {
    exists|sorted: Seq<&WallpaperEntry>| #[trigger]
        is_sorted_version(sorted, visible_entries(entries, matched), rules, meta) && are_ids_of(
            ids,
            sorted,
        )
}

/// Resolves the user-visible ordered list of entry ids: snapshot, then
/// filter, then sort. `matched` is `None` when there is no filter.
pub fn ordered_entry_ids(
    snapshot: &Vec<WallpaperEntry>,
    matched: &Option<ItemKeySet>,
    sorts: &[WallpaperSortRule],
    db_meta_map: &DbMetaMap,
) -> (ids: Vec<String>)
    requires
        db_meta_map.wf(),
        matched matches Some(keys) ==> keys.wf(),
    ensures
        is_visible_order(ids@, snapshot@, matched_set(matched), sorts@, db_meta_map@),
{
    let ghost keys = matched_set(matched);
    let mut filtered: Vec<&WallpaperEntry> = Vec::new();
    let mut i: usize = 0;
    while i < snapshot.len()
        invariant
            i <= snapshot@.len(),
            keys == matched_set(matched),
            matched matches Some(keys) ==> keys.wf(),
            filtered@ == visible_entries(snapshot@.take(i as int), keys),
        decreases snapshot@.len() - i,
    {
        let e: &WallpaperEntry = &snapshot[i];
        let keep: bool = match matched {
            Some(keys) => match &e.relative {
                Some(rel) => keys.contains_key(
                    &ItemKey { root: e.library_root.clone(), path: rel.clone() },
                ),
                None => false,
            },
            None => true,
        };
        assert(snapshot@.take(i + 1).drop_last() =~= snapshot@.take(i as int));
        if keep {
            filtered.push(e);
        }
        i += 1;
    }
    assert(snapshot@.take(i as int) =~= snapshot@);
    let ghost input = filtered@;
    if sorts.len() > 0 {
        apply_wallpaper_sorts(filtered.as_mut_slice(), sorts, db_meta_map);
    } else {
        let count: usize = filtered.len();
        proof {
            assert(input.len() == count);
            lemma_no_rules(input, sorts@, db_meta_map@);
        }
    }
    let mut ids: Vec<String> = Vec::new();
    let mut j: usize = 0;
    while j < filtered.len()
        invariant
            j <= filtered@.len(),
            ids@.len() == j,
            forall|k: int| 0 <= k < j ==> (#[trigger] ids@[k])@ == filtered@[k].id@,
        decreases filtered@.len() - j,
    {
        ids.push(filtered[j].id.clone());
        j += 1;
    }
    assert(are_ids_of(ids@, filtered@));
    ids
}

// ---------------------------------------------------------------------------
// Queries behind the visible order
// ---------------------------------------------------------------------------

/// A question to the database.
#[derive(Debug, Clone, Copy, PartialEq, Eq, Structural)]
pub enum EntryQuery {
    /// The keys of the items that the filters match.
    FilterKeys,
    Libraries,
    Items,
}

/// What to do next for the visible order.
#[derive(Debug, Clone, Copy, PartialEq, Eq, Structural)]
pub enum EntryStep {
    Ask { query: EntryQuery },
    /// Everything is known: call [`ordered_entry_ids`].
    Order,
    /// Give up with the error of this query.
    Failed { query: EntryQuery },
}

/// Whether the filters and whether the recorded metadata are to be asked for:
/// without filters no filter is asked for, and without rules no metadata.
pub fn needed_queries(filters: usize, sorts: usize) -> (need: (bool, bool))
    ensures
        need == (filters > 0, sorts > 0),
{
    (filters > 0, sorts > 0)
}

/// The queries that so many filters and rules need, in the order in which they
/// are made.
pub open spec fn entry_queries(filters: int, sorts: int) -> Seq<EntryQuery> {
    (if filters > 0 {
        seq![EntryQuery::FilterKeys]
    } else {
        Seq::empty()
    }) + (if sorts > 0 {
        seq![EntryQuery::Libraries, EntryQuery::Items]
    } else {
        Seq::empty()
    })
}

/// The first step.
pub open spec fn first_entry_step(filters: int, sorts: int) -> EntryStep {
    if filters > 0 {
        EntryStep::Ask { query: EntryQuery::FilterKeys }
    } else {
        metadata_step(sorts)
    }
}

/// The step once it is known which items are visible.
pub open spec fn metadata_step(sorts: int) -> EntryStep {
    if sorts > 0 {
        EntryStep::Ask { query: EntryQuery::Libraries }
    } else {
        EntryStep::Order
    }
}

/// The step after a query was answered, or failed.
pub open spec fn next_entry_step(step: EntryStep, sorts: int, ok: bool) -> EntryStep {
    match step {
        EntryStep::Ask { query } => if !ok {
            EntryStep::Failed { query }
        } else {
            match query {
                EntryQuery::FilterKeys => metadata_step(sorts),
                EntryQuery::Libraries => EntryStep::Ask { query: EntryQuery::Items },
                EntryQuery::Items => EntryStep::Order,
            }
        },
        _ => step,
    }
}

/// Begins to resolve the visible order.
pub fn begin_ordering(filters: usize, sorts: usize) -> (step: EntryStep)
    ensures
        step == first_entry_step(filters as int, sorts as int),
{
    let (filter, metadata) = needed_queries(filters, sorts);
    if filter {
        EntryStep::Ask { query: EntryQuery::FilterKeys }
    } else if metadata {
        EntryStep::Ask { query: EntryQuery::Libraries }
    } else {
        EntryStep::Order
    }
}

/// Goes on after a query was answered, or failed.
pub fn continue_ordering(step: EntryStep, sorts: usize, ok: bool) -> (next: EntryStep)
    ensures
        next == next_entry_step(step, sorts as int, ok),
{
    match step {
        EntryStep::Ask { query } => {
            if !ok {
                return EntryStep::Failed { query };
            }
            match query {
                EntryQuery::FilterKeys => begin_ordering(0, sorts),
                EntryQuery::Libraries => EntryStep::Ask { query: EntryQuery::Items },
                EntryQuery::Items => EntryStep::Order,
            }
        },
        _ => step,
    }
}

/// The step after a series of answers.
pub open spec fn entry_run(filters: int, sorts: int, answers: Seq<bool>) -> EntryStep
    decreases answers.len(),
{
    if answers.len() == 0 {
        first_entry_step(filters, sorts)
    } else {
        next_entry_step(
            entry_run(filters, sorts, answers.drop_last()),
            sorts,
            answers.last(),
        )
    }
}

/// Exactly the needed queries are made, one after the other, as long as they
/// are answered: after each answer the next one is due, and after the last
/// the entries are ordered.
pub proof fn law_needed_queries_are_made_in_order(filters: int, sorts: int, answers: Seq<bool>)
    requires
        answers.len() <= entry_queries(filters, sorts).len(),
        forall|i: int| 0 <= i < answers.len() ==> #[trigger] answers[i],
    ensures
        entry_run(filters, sorts, answers) == if answers.len() < entry_queries(
            filters,
            sorts,
        ).len() {
            EntryStep::Ask { query: entry_queries(filters, sorts)[answers.len() as int] }
        } else {
            EntryStep::Order
        },
{
    reveal_with_fuel(entry_run, 4);
}

/// A query that fails ends the run with its error, and no other query is
/// made after it.
pub proof fn law_failed_query_ends_the_run(
    filters: int,
    sorts: int,
    answers: Seq<bool>,
    later: Seq<bool>,
)
    requires
        answers.len() < entry_queries(filters, sorts).len(),
        forall|i: int| 0 <= i < answers.len() ==> #[trigger] answers[i],
    ensures
        entry_run(filters, sorts, answers.push(false) + later) == (EntryStep::Failed {
            query: entry_queries(filters, sorts)[answers.len() as int],
        }),
    decreases later.len(),
{
    if later.len() == 0 {
        law_needed_queries_are_made_in_order(filters, sorts, answers);
        assert(answers.push(false) + later =~= answers.push(false));
        assert(answers.push(false).drop_last() =~= answers);
    } else {
        law_failed_query_ends_the_run(filters, sorts, answers, later.drop_last());
        assert((answers.push(false) + later).drop_last() =~= answers.push(false)
            + later.drop_last());
    }
}

/// Without rules a list is its own sorted version.
proof fn lemma_no_rules(
    entries: Seq<&WallpaperEntry>,
    rules: Seq<WallpaperSortRule>,
    meta: Map<(Seq<char>, Seq<char>), ItemMeta>,
)
    requires
        rules.len() == 0,
        entries.len() <= usize::MAX,
    ensures
        is_sorted_version(entries, entries, rules, meta),
{
    let perm = Seq::new(entries.len(), |i: int| i as usize);
    assert(is_rule_order(perm, entry_rows(entries, meta), rules));
    assert(entries =~= Seq::new(entries.len(), |i: int| entries[perm[i] as int]));
}

// ---------------------------------------------------------------------------
// Recorded metadata
// ---------------------------------------------------------------------------

/// A library as the database lists it.
#[derive(Debug)]
pub struct LibraryRow {
    pub id: i64,
    pub path: String,
}

/// An item as the database lists it.
#[derive(Debug)]
pub struct ItemRow {
    pub library_id: i64,
    pub path: String,
    pub meta: ItemMeta,
}

/// The path of the last library with the given id.
pub open spec fn library_path(libs: Seq<LibraryRow>, id: i64) -> Option<Seq<char>>
    decreases libs.len(),
{
    if libs.len() == 0 {
        None
    } else if libs.last().id == id {
        Some(libs.last().path@)
    } else {
        library_path(libs.drop_last(), id)
    }
}

/// The metadata of all items whose library is known, by library path and item
/// path; of two items with the same paths the later one counts.
pub open spec fn recorded_meta(libs: Seq<LibraryRow>, items: Seq<ItemRow>) -> Map<
    (Seq<char>, Seq<char>),
    ItemMeta,
>
    decreases items.len(),
{
    if items.len() == 0 {
        Map::empty()
    } else {
        let earlier = recorded_meta(libs, items.drop_last());
        match library_path(libs, items.last().library_id) {
            Some(path) => earlier.insert((path, items.last().path@), items.last().meta),
            None => earlier,
        }
    }
}

/// Joins items with their libraries. Items of an unknown library are left
/// out.
pub fn load_db_meta_map(libs: &Vec<LibraryRow>, items: &Vec<ItemRow>) -> (map: DbMetaMap)
    ensures
        map.wf(),
        map@ == recorded_meta(libs@, items@),
{
    let mut map: DbMetaMap = Table::new();
    let mut i: usize = 0;
    while i < items.len()
        invariant
            i <= items@.len(),
            map.wf(),
            map@ == recorded_meta(libs@, items@.take(i as int)),
        decreases items@.len() - i,
    {
        let it: &ItemRow = &items[i];
        assert(items@.take(i + 1).drop_last() =~= items@.take(i as int));
        let mut left: usize = libs.len();
        assert(libs@.take(left as int) =~= libs@);
        while left > 0 && libs[left - 1].id != it.library_id
            invariant
                left <= libs@.len(),
                library_path(libs@, it.library_id) == library_path(
                    libs@.take(left as int),
                    it.library_id,
                ),
            decreases left,
        {
            assert(libs@.take(left as int).drop_last() =~= libs@.take(left - 1));
            left -= 1;
        }
        if left > 0 {
            assert(libs@.take(left as int).last() == libs@[left - 1]);
            map.insert(
                ItemKey { root: libs[left - 1].path.clone(), path: it.path.clone() },
                it.meta,
            );
        }
        i += 1;
    }
    assert(items@.take(i as int) =~= items@);
    map
}

// ---------------------------------------------------------------------------
// Laws
// ---------------------------------------------------------------------------

/// `perm` lists its places so that each goes before those after it.
proof fn lemma_rule_order_places(
    perm: Seq<usize>,
    rows: Seq<RowView>,
    rules: Seq<WallpaperSortRule>,
)
    requires
        is_rule_order(perm, rows, rules),
    ensures
        in_order(perm, rules, rows),
{
    assert forall|i: int, j: int| 0 <= i < j < perm.len() implies place_before(
        rules,
        rows,
        #[trigger] perm[i],
        #[trigger] perm[j],
    ) by {
        lemma_place_before(rules, rows, perm[i], perm[j]);
    }
}

proof fn lemma_places_rule_order(
    perm: Seq<usize>,
    rows: Seq<RowView>,
    rules: Seq<WallpaperSortRule>,
)
    requires
        is_arrangement(perm, rows.len()),
        in_order(perm, rules, rows),
    ensures
        is_rule_order(perm, rows, rules),
{
    assert forall|i: int, j: int| 0 <= i < j < perm.len() implies !rows_before(
        rules,
        rows[perm[j] as int],
        rows[perm[i] as int],
    ) && (rows_before(rules, rows[#[trigger] perm[i] as int], rows[#[trigger] perm[j] as int])
        || perm[i] < perm[j]) by {
        lemma_place_before(rules, rows, perm[i], perm[j]);
    }
}

/// Each of the first `n` places occurs in an arrangement of them.
proof fn lemma_arrangement_covers(perm: Seq<usize>, n: nat, x: usize)
    requires
        is_arrangement(perm, n),
        x < n,
    ensures
        perm.contains(x),
{
    let ints = Seq::new(n, |i: int| perm[i] as int);
    assert(ints.no_duplicates());
    ints.unique_seq_to_set();
    let all = vstd::set_lib::set_int_range(0, n as int);
    vstd::set_lib::lemma_int_range(0, n as int);
    assert(ints.to_set().subset_of(all)) by {
        assert forall|v: int| ints.to_set().contains(v) implies all.contains(v) by {
            let k = ints.index_of(v);
            assert(ints.contains(v));
            assert(perm[k] < n);
        }
    }
    vstd::set_lib::lemma_subset_equality(ints.to_set(), all);
    assert(all.contains(x as int));
    assert(ints.contains(x as int));
    let k = ints.index_of(x as int);
    assert(perm[k] == x);
}

proof fn lemma_rule_order_unique(
    p: Seq<usize>,
    q: Seq<usize>,
    rows: Seq<RowView>,
    rules: Seq<WallpaperSortRule>,
    k: int,
)
    requires
        is_rule_order(p, rows, rules),
        is_rule_order(q, rows, rules),
        0 <= k <= rows.len(),
    ensures
        p.take(k) == q.take(k),
    decreases k,
{
    if k > 0 {
        lemma_rule_order_unique(p, q, rows, rules, k - 1);
        let x = p[k - 1];
        let y = q[k - 1];
        lemma_arrangement_covers(q, rows.len(), x);
        lemma_arrangement_covers(p, rows.len(), y);
        let xi = q.index_of(x);
        let yi = p.index_of(y);
        assert forall|m: int| 0 <= m < k - 1 implies p[m] == q[m] by {
            assert(p.take(k - 1)[m] == q.take(k - 1)[m]);
        }
        if x != y {
            assert(xi > k - 1);
            assert(yi > k - 1);
        }
        assert(p.take(k) =~= p.take(k - 1).push(x));
        assert(q.take(k) =~= q.take(k - 1).push(y));
    }
}

/// The rules fix the order: a list has exactly one sorted version.
pub proof fn law_sorted_version_is_unique(
    a: Seq<&WallpaperEntry>,
    b: Seq<&WallpaperEntry>,
    entries: Seq<&WallpaperEntry>,
    rules: Seq<WallpaperSortRule>,
    meta: Map<(Seq<char>, Seq<char>), ItemMeta>,
)
    requires
        is_sorted_version(a, entries, rules, meta),
        is_sorted_version(b, entries, rules, meta),
    ensures
        a == b,
{
    let rows = entry_rows(entries, meta);
    let p = choose|perm: Seq<usize>| #[trigger]
        is_rule_order(perm, rows, rules) && a == Seq::new(
            entries.len(),
            |i: int| entries[perm[i] as int],
        );
    let q = choose|perm: Seq<usize>| #[trigger]
        is_rule_order(perm, rows, rules) && b == Seq::new(
            entries.len(),
            |i: int| entries[perm[i] as int],
        );
    lemma_rule_order_unique(p, q, rows, rules, rows.len() as int);
    assert(p.take(rows.len() as int) =~= p);
    assert(q.take(rows.len() as int) =~= q);
}

/// The first rule is the primary key: in a sorted version no entry comes
/// before an earlier one by that rule.
pub proof fn law_first_rule_is_primary(
    out: Seq<&WallpaperEntry>,
    entries: Seq<&WallpaperEntry>,
    rules: Seq<WallpaperSortRule>,
    meta: Map<(Seq<char>, Seq<char>), ItemMeta>,
    i: int,
    j: int,
)
    requires
        is_sorted_version(out, entries, rules, meta),
        rules.len() > 0,
        0 <= i < j < out.len(),
    ensures
        !rule_before(rules.first(), entry_rows(out, meta)[j], entry_rows(out, meta)[i]),
{
    let rows = entry_rows(entries, meta);
    let p = choose|perm: Seq<usize>| #[trigger]
        is_rule_order(perm, rows, rules) && out == Seq::new(
            entries.len(),
            |i: int| entries[perm[i] as int],
        );
    assert(entry_rows(out, meta)[i] == rows[p[i] as int]);
    assert(entry_rows(out, meta)[j] == rows[p[j] as int]);
    assert(!rows_before(rules, rows[p[j] as int], rows[p[i] as int]));
}

/// The rules that have a key.
pub open spec fn usable(rules: Seq<WallpaperSortRule>) -> Seq<WallpaperSortRule>
    decreases rules.len(),
{
    if rules.len() == 0 {
        Seq::empty()
    } else if active_key(rules.first()) is None {
        usable(rules.skip(1))
    } else {
        seq![rules.first()] + usable(rules.skip(1))
    }
}

proof fn lemma_usable_rules_decide(rules: Seq<WallpaperSortRule>, a: RowView, b: RowView)
    ensures
        rows_before(rules, a, b) == rows_before(usable(rules), a, b),
    decreases rules.len(),
{
    if rules.len() > 0 {
        lemma_usable_rules_decide(rules.skip(1), a, b);
        if active_key(rules.first()) is Some {
            assert(usable(rules).skip(1) =~= usable(rules.skip(1)));
        }
    }
}

proof fn lemma_usable_rules_order(
    perm: Seq<usize>,
    rows: Seq<RowView>,
    rules: Seq<WallpaperSortRule>,
)
    ensures
        is_rule_order(perm, rows, rules) == is_rule_order(perm, rows, usable(rules)),
{
    assert forall|a: RowView, b: RowView| #[trigger]
        rows_before(rules, a, b) == rows_before(usable(rules), a, b) by {
        lemma_usable_rules_decide(rules, a, b);
    }
}

/// A rule without a key changes nothing, wherever it stands: a list is sorted
/// by some rules exactly if it is sorted by those of them that have a key.
pub proof fn law_rule_without_key_is_skipped(
    out: Seq<&WallpaperEntry>,
    entries: Seq<&WallpaperEntry>,
    rules: Seq<WallpaperSortRule>,
    meta: Map<(Seq<char>, Seq<char>), ItemMeta>,
)
    ensures
        is_sorted_version(out, entries, rules, meta) <==> is_sorted_version(
            out,
            entries,
            usable(rules),
            meta,
        ),
{
    let rows = entry_rows(entries, meta);
    assert forall|perm: Seq<usize>|
        #![trigger is_rule_order(perm, rows, rules)]
        #![trigger is_rule_order(perm, rows, usable(rules))]
        is_rule_order(perm, rows, rules) == is_rule_order(perm, rows, usable(rules)) by {
        lemma_usable_rules_order(perm, rows, rules);
    }
}

/// By a joined list of rules: by the first part, and where that leaves it
/// open, by the second.
proof fn lemma_joined_rules(
    first: Seq<WallpaperSortRule>,
    rest: Seq<WallpaperSortRule>,
    rows: Seq<RowView>,
    x: usize,
    y: usize,
)
    ensures
        place_before(first + rest, rows, x, y) <==> {
            ||| rows_before(first, rows[x as int], rows[y as int])
            ||| !rows_before(first, rows[y as int], rows[x as int]) && place_before(
                rest,
                rows,
                x,
                y,
            )
        },
    decreases first.len(),
{
    if first.len() == 0 {
        assert(first + rest =~= rest);
    } else {
        assert((first + rest).skip(1) =~= first.skip(1) + rest);
        lemma_joined_rules(first.skip(1), rest, rows, x, y);
    }
}

/// Sorting stably by some rules and then by others gives the order of all of
/// them together, the later ones first.
pub proof fn law_joined_rules_sort_in_two_passes(
    entries: Seq<&WallpaperEntry>,
    mid: Seq<&WallpaperEntry>,
    out: Seq<&WallpaperEntry>,
    first: Seq<WallpaperSortRule>,
    rest: Seq<WallpaperSortRule>,
    meta: Map<(Seq<char>, Seq<char>), ItemMeta>,
)
    requires
        is_sorted_version(mid, entries, rest, meta),
        is_sorted_version(out, mid, first, meta),
    ensures
        is_sorted_version(out, entries, first + rest, meta),
{
    let rules = first + rest;
    let rows = entry_rows(entries, meta);
    let mid_rows = entry_rows(mid, meta);
    let p = choose|perm: Seq<usize>| #[trigger]
        is_rule_order(perm, rows, rest) && mid == Seq::new(
            entries.len(),
            |i: int| entries[perm[i] as int],
        );
    let q = choose|perm: Seq<usize>| #[trigger]
        is_rule_order(perm, mid_rows, first) && out == Seq::new(
            mid.len(),
            |i: int| mid[perm[i] as int],
        );
    let both = Seq::new(entries.len(), |i: int| p[q[i] as int]);
    lemma_rule_order_places(p, rows, rest);
    assert forall|i: int, j: int| 0 <= i < j < both.len() implies place_before(
        rules,
        rows,
        #[trigger] both[i],
        #[trigger] both[j],
    ) by {
        let x = q[i];
        let y = q[j];
        assert(mid_rows[x as int] == rows[p[x as int] as int]);
        assert(mid_rows[y as int] == rows[p[y as int] as int]);
        lemma_joined_rules(first, rest, rows, both[i], both[j]);
        if !rows_before(first, mid_rows[x as int], mid_rows[y as int]) {
            assert(x < y);
            assert(place_before(rest, rows, p[x as int], p[y as int]));
        }
    }
    assert forall|i: int, j: int| 0 <= i < j < both.len() implies both[i] != both[j] by {
        assert(q[i] != q[j]);
    }
    assert forall|i: int| 0 <= i < both.len() implies #[trigger] both[i] < both.len() by {
        assert(q[i] < mid.len());
    }
    lemma_places_rule_order(both, rows, rules);
    assert(out =~= Seq::new(entries.len(), |i: int| entries[both[i] as int]));
}

/// Sorting stably by the later rules and then by the first one gives the
/// order of all rules together.
pub proof fn law_rules_apply_from_last_to_first(
    entries: Seq<&WallpaperEntry>,
    mid: Seq<&WallpaperEntry>,
    out: Seq<&WallpaperEntry>,
    rules: Seq<WallpaperSortRule>,
    meta: Map<(Seq<char>, Seq<char>), ItemMeta>,
)
    requires
        rules.len() > 0,
        is_sorted_version(mid, entries, rules.skip(1), meta),
        is_sorted_version(out, mid, seq![rules.first()], meta),
    ensures
        is_sorted_version(out, entries, rules, meta),
{
    law_joined_rules_sort_in_two_passes(
        entries,
        mid,
        out,
        seq![rules.first()],
        rules.skip(1),
        meta,
    );
    assert(seq![rules.first()] + rules.skip(1) =~= rules);
}

/// A sorted list stays as it is when it is sorted again by the same rules.
pub proof fn law_sorting_again_changes_nothing(
    entries: Seq<&WallpaperEntry>,
    out: Seq<&WallpaperEntry>,
    again: Seq<&WallpaperEntry>,
    rules: Seq<WallpaperSortRule>,
    meta: Map<(Seq<char>, Seq<char>), ItemMeta>,
)
    requires
        is_sorted_version(out, entries, rules, meta),
        is_sorted_version(again, out, rules, meta),
    ensures
        again == out,
{
    let rows = entry_rows(entries, meta);
    let out_rows = entry_rows(out, meta);
    let p = choose|perm: Seq<usize>| #[trigger]
        is_rule_order(perm, rows, rules) && out == Seq::new(
            entries.len(),
            |i: int| entries[perm[i] as int],
        );
    let q = choose|perm: Seq<usize>| #[trigger]
        is_rule_order(perm, out_rows, rules) && again == Seq::new(
            out.len(),
            |i: int| out[perm[i] as int],
        );
    let same = Seq::new(out.len(), |i: int| i as usize);
    lemma_arrangement_fits(q, out.len());
    assert forall|i: int| 0 <= i < out.len() implies #[trigger] same[i] == i by {}
    assert forall|i: int, j: int| 0 <= i < j < same.len() implies !rows_before(
        rules,
        out_rows[same[j] as int],
        out_rows[same[i] as int],
    ) && (rows_before(
        rules,
        out_rows[#[trigger] same[i] as int],
        out_rows[#[trigger] same[j] as int],
    ) || same[i] < same[j]) by {
        assert(out_rows[i] == rows[p[i] as int]);
        assert(out_rows[j] == rows[p[j] as int]);
    }
    assert(is_rule_order(same, out_rows, rules));
    assert(out =~= Seq::new(out.len(), |i: int| out[same[i] as int]));
    law_sorted_version_is_unique(again, out, out, rules, meta);
}

/// An arrangement has no more places than machine numbers can name.
proof fn lemma_arrangement_fits(perm: Seq<usize>, n: nat)
    requires
        is_arrangement(perm, n),
    ensures
        n <= usize::MAX + 1,
{
    let ints = Seq::new(n, |i: int| perm[i] as int);
    assert(ints.no_duplicates());
    ints.unique_seq_to_set();
    let all = vstd::set_lib::set_int_range(0, usize::MAX + 1);
    vstd::set_lib::lemma_int_range(0, usize::MAX + 1);
    assert(ints.to_set().subset_of(all)) by {
        assert forall|v: int| ints.to_set().contains(v) implies all.contains(v) by {
            assert(ints.contains(v));
            let k = ints.index_of(v);
            assert(perm[k] <= usize::MAX);
        }
    }
    vstd::set_lib::lemma_len_subset(ints.to_set(), all);
}

/// Browsing and stepping agree: two lists of ids for the same snapshot,
/// filter, rules and metadata name the same entries in the same order.
pub proof fn law_visible_order_is_unique(
    a: Seq<String>,
    b: Seq<String>,
    entries: Seq<WallpaperEntry>,
    matched: Option<Set<(Seq<char>, Seq<char>)>>,
    rules: Seq<WallpaperSortRule>,
    meta: Map<(Seq<char>, Seq<char>), ItemMeta>,
)
    requires
        is_visible_order(a, entries, matched, rules, meta),
        is_visible_order(b, entries, matched, rules, meta),
    ensures
        a.len() == b.len(),
        forall|i: int| 0 <= i < a.len() ==> (#[trigger] a[i])@ == b[i]@,
{
    let shown = visible_entries(entries, matched);
    let x = choose|sorted: Seq<&WallpaperEntry>| #[trigger]
        is_sorted_version(sorted, shown, rules, meta) && are_ids_of(a, sorted);
    let y = choose|sorted: Seq<&WallpaperEntry>| #[trigger]
        is_sorted_version(sorted, shown, rules, meta) && are_ids_of(b, sorted);
    law_sorted_version_is_unique(x, y, shown, rules, meta);
}

// ---------------------------------------------------------------------------
// Laws on the values of entries
// ---------------------------------------------------------------------------

/// The number of bytes by which an entry is sorted: what the database records
/// under the entry's library and path, or else what the entry itself says.
pub open spec fn sorting_size(
    e: &WallpaperEntry,
    meta: Map<(Seq<char>, Seq<char>), ItemMeta>,
) -> int {
    if e.relative is Some && meta.contains_key((e.library_root@, e.relative->0@)) && meta[(
        e.library_root@,
        e.relative->0@,
    )].size is Some {
        meta[(e.library_root@, e.relative->0@)].size->0 as int
    } else if e.size is Some {
        e.size->0 as int
    } else {
        0
    }
}

/// The time by which an entry is sorted: what the database records under the
/// entry's library and path, or else zero.
pub open spec fn sorting_time(
    e: &WallpaperEntry,
    meta: Map<(Seq<char>, Seq<char>), ItemMeta>,
) -> int {
    if e.relative is Some && meta.contains_key((e.library_root@, e.relative->0@)) && meta[(
        e.library_root@,
        e.relative->0@,
    )].modified_at is Some {
        meta[(e.library_root@, e.relative->0@)].modified_at->0 as int
    } else {
        0
    }
}

/// `a` ends, or has the smaller character, where the two texts first differ.
pub open spec fn in_dictionary_before(a: Seq<char>, b: Seq<char>) -> bool {
    exists|k: int| text::smaller_from(a, b, k)
}

/// The value of `a` for a key is smaller than that of `b`.
pub open spec fn has_smaller_value(
    key: WallpaperSortKey,
    a: &WallpaperEntry,
    b: &WallpaperEntry,
    meta: Map<(Seq<char>, Seq<char>), ItemMeta>,
) -> bool {
    ||| key == WallpaperSortKey::Name && in_dictionary_before(
        lowercase(a.name@),
        lowercase(b.name@),
    )
    ||| key == WallpaperSortKey::WpType && in_dictionary_before(a.wp_type@, b.wp_type@)
    ||| key == WallpaperSortKey::Size && sorting_size(a, meta) < sorting_size(b, meta)
    ||| key == WallpaperSortKey::LastModified && sorting_time(a, meta) < sorting_time(b, meta)
}

/// One rule by itself puts `a` before `b`: by the smaller value, or by the
/// larger one where the direction is descending.
pub open spec fn is_put_first(
    rule: WallpaperSortRule,
    a: &WallpaperEntry,
    b: &WallpaperEntry,
    meta: Map<(Seq<char>, Seq<char>), ItemMeta>,
) -> bool {
    rule.key is Some && (if rule.direction == Some(SortDirection::Desc) {
        has_smaller_value(rule.key->0, b, a, meta)
    } else {
        has_smaller_value(rule.key->0, a, b, meta)
    })
}

/// Neither entry is put first by any of the first `r` rules.
pub open spec fn are_tied(
    rules: Seq<WallpaperSortRule>,
    r: int,
    a: &WallpaperEntry,
    b: &WallpaperEntry,
    meta: Map<(Seq<char>, Seq<char>), ItemMeta>,
) -> bool {
    forall|q: int|
        0 <= q < r ==> !is_put_first(#[trigger] rules[q], a, b, meta) && !is_put_first(
            rules[q],
            b,
            a,
            meta,
        )
}

/// Rule `r` is the first that tells the entries apart, and it puts `a` first.
pub open spec fn is_decided_by(
    rules: Seq<WallpaperSortRule>,
    r: int,
    a: &WallpaperEntry,
    b: &WallpaperEntry,
    meta: Map<(Seq<char>, Seq<char>), ItemMeta>,
) -> bool {
    0 <= r < rules.len() && are_tied(rules, r, a, b, meta) && is_put_first(rules[r], a, b, meta)
}

proof fn lemma_rule_by_values(
    rule: WallpaperSortRule,
    a: &WallpaperEntry,
    b: &WallpaperEntry,
    meta: Map<(Seq<char>, Seq<char>), ItemMeta>,
)
    ensures
        rule_before(rule, row_of(a, lowercase(a.name@), meta), row_of(b, lowercase(b.name@), meta))
            == is_put_first(rule, a, b, meta),
{
    text::law_texts_are_in_dictionary_order(lowercase(a.name@), lowercase(b.name@));
    text::law_texts_are_in_dictionary_order(lowercase(b.name@), lowercase(a.name@));
    text::law_texts_are_in_dictionary_order(a.wp_type@, b.wp_type@);
    text::law_texts_are_in_dictionary_order(b.wp_type@, a.wp_type@);
}

proof fn lemma_rules_by_values(
    rules: Seq<WallpaperSortRule>,
    a: &WallpaperEntry,
    b: &WallpaperEntry,
    meta: Map<(Seq<char>, Seq<char>), ItemMeta>,
)
    ensures
        rows_before(
            rules,
            row_of(a, lowercase(a.name@), meta),
            row_of(b, lowercase(b.name@), meta),
        ) <==> exists|r: int| is_decided_by(rules, r, a, b, meta),
    decreases rules.len(),
{
    if rules.len() > 0 {
        let rest = rules.skip(1);
        lemma_rules_by_values(rest, a, b, meta);
        lemma_rule_by_values(rules.first(), a, b, meta);
        lemma_rule_by_values(rules.first(), b, a, meta);
        lemma_rule_asymmetric(
            rules.first(),
            row_of(a, lowercase(a.name@), meta),
            row_of(b, lowercase(b.name@), meta),
        );
        if is_put_first(rules[0], a, b, meta) {
            assert(is_decided_by(rules, 0, a, b, meta));
        } else if !is_put_first(rules[0], b, a, meta) {
            if exists|r: int| is_decided_by(rest, r, a, b, meta) {
                let r = choose|r: int| is_decided_by(rest, r, a, b, meta);
                assert forall|q: int| 0 <= q < r + 1 implies !is_put_first(
                    #[trigger] rules[q],
                    a,
                    b,
                    meta,
                ) && !is_put_first(rules[q], b, a, meta) by {
                    if q > 0 {
                        assert(rest[q - 1] == rules[q]);
                    }
                }
                assert(rest[r] == rules[r + 1]);
                assert(is_decided_by(rules, r + 1, a, b, meta));
            }
            if exists|r: int| is_decided_by(rules, r, a, b, meta) {
                let r = choose|r: int| is_decided_by(rules, r, a, b, meta);
                assert forall|q: int| 0 <= q < r - 1 implies !is_put_first(
                    #[trigger] rest[q],
                    a,
                    b,
                    meta,
                ) && !is_put_first(rest[q], b, a, meta) by {
                    assert(rest[q] == rules[q + 1]);
                }
                assert(rest[r - 1] == rules[r]);
                assert(is_decided_by(rest, r - 1, a, b, meta));
            }
        } else {
            if exists|r: int| is_decided_by(rules, r, a, b, meta) {
                let r = choose|r: int| is_decided_by(rules, r, a, b, meta);
                if r > 0 {
                    assert(!is_put_first(rules[0], b, a, meta));
                }
            }
        }
    }
}

/// `places` names each of `n` places once, and `out` holds what stands there.
pub open spec fn rearranges<T>(places: Seq<int>, out: Seq<T>, list: Seq<T>) -> bool {
    &&& places.len() == list.len() && out.len() == list.len()
    &&& forall|i: int|
        0 <= i < places.len() ==> 0 <= #[trigger] places[i] < list.len() && out[i]
            == list[places[i]]
    &&& forall|i: int, j: int| 0 <= i < j < places.len() ==> places[i] != places[j]
}

/// A sorted list is a rearrangement of the list, neither losing nor doubling
/// an entry, in which of any two entries the first rule that tells them apart
/// decides, by their values; two entries that no rule tells apart keep the
/// order they had.
pub proof fn law_sorted_by_the_values_of_entries(
    out: Seq<&WallpaperEntry>,
    entries: Seq<&WallpaperEntry>,
    rules: Seq<WallpaperSortRule>,
    meta: Map<(Seq<char>, Seq<char>), ItemMeta>,
) -> (places: Seq<int>)
    requires
        is_sorted_version(out, entries, rules, meta),
    ensures
        rearranges(places, out, entries),
        forall|i: int, j: int|
            0 <= i < j < out.len() ==> {
                ||| exists|r: int| is_decided_by(rules, r, #[trigger] out[i], #[trigger] out[j], meta)
                ||| are_tied(rules, rules.len() as int, out[i], out[j], meta) && places[i]
                    < places[j]
            },
{
    let rows = entry_rows(entries, meta);
    let p = choose|perm: Seq<usize>| #[trigger]
        is_rule_order(perm, rows, rules) && out == Seq::new(
            entries.len(),
            |i: int| entries[perm[i] as int],
        );
    let places = Seq::new(p.len(), |i: int| p[i] as int);
    assert forall|i: int| 0 <= i < places.len() implies 0 <= #[trigger] places[i] < entries.len()
        && out[i] == entries[places[i]] by {
        assert(p[i] < rows.len());
    }
    assert forall|i: int, j: int| 0 <= i < j < out.len() implies {
        ||| exists|r: int| is_decided_by(rules, r, #[trigger] out[i], #[trigger] out[j], meta)
        ||| are_tied(rules, rules.len() as int, out[i], out[j], meta) && places[i] < places[j]
    } by {
        assert(p[i] < rows.len() && p[j] < rows.len());
        lemma_rules_by_values(rules, out[i], out[j], meta);
        lemma_rules_by_values(rules, out[j], out[i], meta);
        if !(exists|r: int| is_decided_by(rules, r, out[i], out[j], meta)) {
            assert(!(exists|r: int| is_decided_by(rules, r, out[j], out[i], meta)));
            lemma_undecided_is_tied(rules, rules.len() as int, out[i], out[j], meta);
        }
    }
    places
}

proof fn lemma_undecided_is_tied(
    rules: Seq<WallpaperSortRule>,
    r: int,
    a: &WallpaperEntry,
    b: &WallpaperEntry,
    meta: Map<(Seq<char>, Seq<char>), ItemMeta>,
)
    requires
        0 <= r <= rules.len(),
        forall|q: int| !is_decided_by(rules, q, a, b, meta),
        forall|q: int| !is_decided_by(rules, q, b, a, meta),
    ensures
        are_tied(rules, r, a, b, meta),
    decreases r,
{
    if r > 0 {
        lemma_undecided_is_tied(rules, r - 1, a, b, meta);
        assert(are_tied(rules, r - 1, b, a, meta));
        assert(!is_decided_by(rules, r - 1, a, b, meta));
        assert(!is_decided_by(rules, r - 1, b, a, meta));
    }
}

/// By the first rule the values ascend, or descend where its direction says
/// so, whichever key it has.
pub proof fn law_values_run_in_the_direction_of_the_first_rule(
    out: Seq<&WallpaperEntry>,
    entries: Seq<&WallpaperEntry>,
    rules: Seq<WallpaperSortRule>,
    meta: Map<(Seq<char>, Seq<char>), ItemMeta>,
    i: int,
    j: int,
)
    requires
        is_sorted_version(out, entries, rules, meta),
        rules.len() > 0,
        0 <= i < j < out.len(),
    ensures
        ({
            let key = rules[0].key;
            let (low, high) = if rules[0].direction == Some(SortDirection::Desc) {
                (out[j], out[i])
            } else {
                (out[i], out[j])
            };
            &&& key == Some(WallpaperSortKey::Size) ==> sorting_size(low, meta) <= sorting_size(
                high,
                meta,
            )
            &&& key == Some(WallpaperSortKey::LastModified) ==> sorting_time(low, meta)
                <= sorting_time(high, meta)
            &&& key == Some(WallpaperSortKey::Name) ==> lowercase(low.name@) == lowercase(
                high.name@,
            ) || in_dictionary_before(lowercase(low.name@), lowercase(high.name@))
            &&& key == Some(WallpaperSortKey::WpType) ==> low.wp_type@ == high.wp_type@
                || in_dictionary_before(low.wp_type@, high.wp_type@)
        }),
{
    let places = law_sorted_by_the_values_of_entries(out, entries, rules, meta);
    let a = out[i];
    let b = out[j];
    if exists|r: int| is_decided_by(rules, r, a, b, meta) {
        let r = choose|r: int| is_decided_by(rules, r, a, b, meta);
        if r > 0 {
            assert(!is_put_first(rules[0], b, a, meta));
        }
    } else {
        assert(!is_put_first(rules[0], b, a, meta));
    }
    text::lemma_text_total(lowercase(a.name@), lowercase(b.name@));
    text::lemma_text_total(a.wp_type@, b.wp_type@);
    text::law_texts_are_in_dictionary_order(lowercase(a.name@), lowercase(b.name@));
    text::law_texts_are_in_dictionary_order(lowercase(b.name@), lowercase(a.name@));
    text::law_texts_are_in_dictionary_order(a.wp_type@, b.wp_type@);
    text::law_texts_are_in_dictionary_order(b.wp_type@, a.wp_type@);
}

/// Whether a filter lets an entry through, by the keys that it matched.
pub open spec fn passes_filter(matched: &Option<ItemKeySet>, e: WallpaperEntry) -> bool {
    matched is Some ==> e.relative is Some && (matched->0)@.contains_key(
        (e.library_root@, e.relative->0@),
    )
}

/// The places of a list at which the entries of a filtered list stand: they
/// ascend, and they are exactly the places of entries that the filter lets
/// through.
proof fn lemma_visible_places(
    entries: Seq<WallpaperEntry>,
    matched: &Option<ItemKeySet>,
) -> (places: Seq<int>)
    ensures
        places.len() == visible_entries(entries, matched_set(matched)).len(),
        forall|i: int|
            0 <= i < places.len() ==> 0 <= #[trigger] places[i] < entries.len()
                && *visible_entries(entries, matched_set(matched))[i] == entries[places[i]],
        forall|i: int, j: int|
            0 <= i < j < places.len() ==> #[trigger] places[i] < #[trigger] places[j],
        forall|k: int|
            0 <= k < entries.len() ==> (places.contains(k) <==> passes_filter(
                matched,
                #[trigger] entries[k],
            )),
    decreases entries.len(),
{
    if entries.len() == 0 {
        Seq::empty()
    } else {
        let head = entries.drop_last();
        let last = entries.len() - 1;
        let before = lemma_visible_places(head, matched);
        let shown = visible_entries(entries, matched_set(matched));
        let places = if passes_filter(matched, entries[last]) {
            before.push(last)
        } else {
            before
        };
        assert forall|i: int| 0 <= i < places.len() implies 0 <= #[trigger] places[i]
            < entries.len() && *shown[i] == entries[places[i]] by {
            if i < before.len() {
                assert(before[i] < head.len());
                assert(head[before[i]] == entries[before[i]]);
            }
        }
        assert forall|k: int| 0 <= k < entries.len() implies (places.contains(k)
            <==> passes_filter(matched, #[trigger] entries[k])) by {
            if k < last {
                assert(head[k] == entries[k]);
                if before.contains(k) {
                    let i = before.index_of(k);
                    assert(places[i] == k);
                }
                if places.contains(k) {
                    let i = places.index_of(k);
                    assert(before[i] == k);
                }
            } else {
                if passes_filter(matched, entries[k]) {
                    assert(places[before.len() as int] == k);
                }
                if places.contains(k) {
                    let i = places.index_of(k);
                    if i < before.len() {
                        assert(before[i] < head.len());
                    }
                }
            }
        }
        places
    }
}

/// The visible order names exactly the entries that the filter lets through,
/// each once and by its id; of any two the first rule that tells them apart
/// decides, by their values, and two that no rule tells apart stand as in the
/// snapshot.
pub proof fn law_visible_order_by_the_values_of_entries(
    ids: Seq<String>,
    entries: Seq<WallpaperEntry>,
    matched: &Option<ItemKeySet>,
    rules: Seq<WallpaperSortRule>,
    meta: Map<(Seq<char>, Seq<char>), ItemMeta>,
) -> (places: Seq<int>)
    requires
        is_visible_order(ids, entries, matched_set(matched), rules, meta),
    ensures
        places.len() == ids.len(),
        forall|i: int|
            0 <= i < ids.len() ==> 0 <= #[trigger] places[i] < entries.len() && ids[i]@
                == entries[places[i]].id@,
        forall|i: int, j: int| 0 <= i < j < places.len() ==> places[i] != places[j],
        forall|k: int|
            0 <= k < entries.len() ==> (places.contains(k) <==> passes_filter(
                matched,
                #[trigger] entries[k],
            )),
        forall|i: int, j: int|
            0 <= i < j < places.len() ==> {
                ||| exists|r: int|
                    is_decided_by(
                        rules,
                        r,
                        &entries[#[trigger] places[i]],
                        &entries[#[trigger] places[j]],
                        meta,
                    )
                ||| are_tied(
                    rules,
                    rules.len() as int,
                    &entries[places[i]],
                    &entries[places[j]],
                    meta,
                ) && places[i] < places[j]
            },
{
    let shown = visible_entries(entries, matched_set(matched));
    let sorted = choose|sorted: Seq<&WallpaperEntry>| #[trigger]
        is_sorted_version(sorted, shown, rules, meta) && are_ids_of(ids, sorted);
    let at = lemma_visible_places(entries, matched);
    let order = law_sorted_by_the_values_of_entries(sorted, shown, rules, meta);
    let places = Seq::new(ids.len(), |i: int| at[order[i]]);
    assert forall|i: int| 0 <= i < ids.len() implies 0 <= #[trigger] places[i] < entries.len()
        && ids[i]@ == entries[places[i]].id@ && *sorted[i] == entries[places[i]] by {
        assert(0 <= order[i] < shown.len());
        assert(at[order[i]] == places[i]);
    }
    assert forall|i: int, j: int| 0 <= i < j < places.len() implies places[i] != places[j] by {
        assert(order[i] != order[j]);
        assert(0 <= order[i] < at.len() && 0 <= order[j] < at.len());
    }
    assert forall|k: int| 0 <= k < entries.len() implies (places.contains(k) <==> passes_filter(
        matched,
        #[trigger] entries[k],
    )) by {
        if places.contains(k) {
            let i = places.index_of(k);
            assert(at[order[i]] == k);
            assert(at.contains(k));
        }
        if at.contains(k) {
            let m = at.index_of(k);
            lemma_rearrangement_covers(order, sorted, shown, m);
            let i = order.index_of(m);
            assert(places[i] == k);
        }
    }
    assert forall|i: int, j: int| 0 <= i < j < places.len() implies {
        ||| exists|r: int|
            is_decided_by(
                rules,
                r,
                &entries[#[trigger] places[i]],
                &entries[#[trigger] places[j]],
                meta,
            )
        ||| are_tied(rules, rules.len() as int, &entries[places[i]], &entries[places[j]], meta)
            && places[i] < places[j]
    } by {
        assert(*sorted[i] == entries[places[i]] && *sorted[j] == entries[places[j]]);
        assert(0 <= order[i] < at.len() && 0 <= order[j] < at.len());
        if order[i] < order[j] {
            assert(at[order[i]] < at[order[j]]);
        }
    }
    places
}

/// Each place of a list occurs in a rearrangement of it.
proof fn lemma_rearrangement_covers<T>(places: Seq<int>, out: Seq<T>, list: Seq<T>, x: int)
    requires
        rearranges(places, out, list),
        0 <= x < list.len(),
    ensures
        places.contains(x),
{
    let n = list.len();
    assert(places.no_duplicates());
    places.unique_seq_to_set();
    let all = vstd::set_lib::set_int_range(0, n as int);
    vstd::set_lib::lemma_int_range(0, n as int);
    assert(places.to_set().subset_of(all)) by {
        assert forall|v: int| places.to_set().contains(v) implies all.contains(v) by {
            let k = places.index_of(v);
            assert(places.contains(v));
            assert(0 <= places[k] < n);
        }
    }
    vstd::set_lib::lemma_subset_equality(places.to_set(), all);
    assert(all.contains(x));
}

/// Library `l` is the one that an item belongs to: it has the item's library
/// id, and no later library has.
pub open spec fn is_library_of(libs: Seq<LibraryRow>, l: int, it: ItemRow) -> bool {
    &&& 0 <= l < libs.len()
    &&& libs[l].id == it.library_id
    &&& forall|m: int| l < m < libs.len() ==> (#[trigger] libs[m]).id != it.library_id
}

/// An item has the given path and belongs to a library with the given root.
pub open spec fn is_filed_under(
    libs: Seq<LibraryRow>,
    it: ItemRow,
    root: Seq<char>,
    path: Seq<char>,
) -> bool {
    &&& it.path@ == path
    &&& exists|l: int| #[trigger] is_library_of(libs, l, it) && libs[l].path@ == root
}

proof fn lemma_library_path(libs: Seq<LibraryRow>, it: ItemRow)
    ensures
        match library_path(libs, it.library_id) {
            Some(root) => exists|l: int| #[trigger]
                is_library_of(libs, l, it) && libs[l].path@ == root,
            None => forall|l: int| 0 <= l < libs.len() ==> (#[trigger] libs[l]).id != it.library_id,
        },
    decreases libs.len(),
{
    if libs.len() > 0 {
        let head = libs.drop_last();
        let last = libs.len() - 1;
        if libs.last().id == it.library_id {
            assert(is_library_of(libs, last, it));
        } else {
            lemma_library_path(head, it);
            if library_path(libs, it.library_id) is Some {
                let l = choose|l: int| #[trigger]
                    is_library_of(head, l, it) && head[l].path@ == library_path(
                        head,
                        it.library_id,
                    )->0;
                assert forall|m: int| l < m < libs.len() implies (#[trigger] libs[m]).id
                    != it.library_id by {
                    if m < last {
                        assert(head[m] == libs[m]);
                    }
                }
                assert(is_library_of(libs, l, it));
            } else {
                assert forall|l: int| 0 <= l < libs.len() implies (#[trigger] libs[l]).id
                    != it.library_id by {
                    if l < last {
                        assert(head[l] == libs[l]);
                    }
                }
            }
        }
    }
}

/// Metadata is recorded under a root and a path exactly if an item with that
/// path belongs to a library with that root; it is that of the last such item.
pub proof fn law_metadata_is_filed_under_its_library(
    libs: Seq<LibraryRow>,
    items: Seq<ItemRow>,
    root: Seq<char>,
    path: Seq<char>,
)
    ensures
        recorded_meta(libs, items).contains_key((root, path)) <==> exists|k: int|
            0 <= k < items.len() && is_filed_under(libs, #[trigger] items[k], root, path),
        recorded_meta(libs, items).contains_key((root, path)) ==> exists|k: int|
            0 <= k < items.len() && is_filed_under(libs, #[trigger] items[k], root, path)
                && recorded_meta(libs, items)[(root, path)] == items[k].meta && forall|m: int|
                k < m < items.len() ==> !is_filed_under(libs, #[trigger] items[m], root, path),
    decreases items.len(),
{
    if items.len() > 0 {
        let head = items.drop_last();
        let last = items.len() - 1;
        let it = items[last];
        law_metadata_is_filed_under_its_library(libs, head, root, path);
        lemma_library_path(libs, it);
        let here = is_filed_under(libs, it, root, path);
        if here {
            let l = choose|l: int| #[trigger] is_library_of(libs, l, it) && libs[l].path@ == root;
            if library_path(libs, it.library_id) is Some {
                let x = choose|x: int| #[trigger]
                    is_library_of(libs, x, it) && libs[x].path@ == library_path(
                        libs,
                        it.library_id,
                    )->0;
                assert(x == l) by {
                    if x < l {
                        assert(libs[l].id != it.library_id);
                    }
                    if l < x {
                        assert(libs[x].id != it.library_id);
                    }
                }
            }
            assert(library_path(libs, it.library_id) == Some(root));
            assert(recorded_meta(libs, items)[(root, path)] == it.meta);
        } else {
            assert(recorded_meta(libs, items).contains_key((root, path)) == recorded_meta(
                libs,
                head,
            ).contains_key((root, path)));
            if recorded_meta(libs, head).contains_key((root, path)) {
                let k = choose|k: int|
                    0 <= k < head.len() && is_filed_under(libs, #[trigger] head[k], root, path)
                        && recorded_meta(libs, head)[(root, path)] == head[k].meta && forall|m: int|
                        k < m < head.len() ==> !is_filed_under(
                            libs,
                            #[trigger] head[m],
                            root,
                            path,
                        );
                assert(items[k] == head[k]);
                assert forall|m: int| k < m < items.len() implies !is_filed_under(
                    libs,
                    #[trigger] items[m],
                    root,
                    path,
                ) by {
                    if m < last {
                        assert(head[m] == items[m]);
                    }
                }
            }
            if exists|k: int|
                0 <= k < items.len() && is_filed_under(libs, #[trigger] items[k], root, path) {
                let k = choose|k: int|
                    0 <= k < items.len() && is_filed_under(libs, #[trigger] items[k], root, path);
                assert(head[k] == items[k]);
            }
        }
    }
}

/// Where no two libraries share an id, the metadata of every item of a listed
/// library is found under that library's path and the item's.
pub proof fn law_item_of_a_listed_library_is_found(
    libs: Seq<LibraryRow>,
    items: Seq<ItemRow>,
    l: int,
    k: int,
)
    requires
        forall|a: int, b: int|
            0 <= a < b < libs.len() ==> (#[trigger] libs[a]).id != (#[trigger] libs[b]).id,
        0 <= l < libs.len(),
        0 <= k < items.len(),
        items[k].library_id == libs[l].id,
    ensures
        recorded_meta(libs, items).contains_key((libs[l].path@, items[k].path@)),
{
    assert(is_library_of(libs, l, items[k]));
    assert(is_filed_under(libs, items[k], libs[l].path@, items[k].path@));
    law_metadata_is_filed_under_its_library(libs, items, libs[l].path@, items[k].path@);
}

/// Rows, filter results and keys are seen as they are.
pub proof fn law_rows_are_seen_as_they_are(
    row: SortRow,
    matched: &Option<ItemKeySet>,
    key: ItemKey,
)
    ensures
        row@.name == row.name@,
        row@.wp_type == row.wp_type@,
        row@.size == row.size,
        row@.modified == row.modified,
        matched_set(matched) is Some <==> matched is Some,
        matched is Some ==> forall|k: (Seq<char>, Seq<char>)|
            matched_set(matched)->0.contains(k) <==> #[trigger] matched->0@.contains_key(k),
        key@.0 == key.root@,
        key@.1 == key.path@,
{
}

/// The row of an entry has its type and the given name; its size and its time
/// are the recorded ones where the database has them, and else its own size and
/// nothing.
pub proof fn law_row_has_the_values_of_its_entry(
    e: &WallpaperEntry,
    lowered: Seq<char>,
    meta: Map<(Seq<char>, Seq<char>), ItemMeta>,
)
    ensures
        ({
            let row = row_of(e, lowered, meta);
            let key = (e.library_root@, e.relative->0@);
            let known = e.relative is Some && meta.contains_key(key);
            &&& row.name == lowered
            &&& row.wp_type == e.wp_type@
            &&& known && meta[key].size is Some ==> row.size == meta[key].size->0
            &&& !(known && meta[key].size is Some) ==> row.size == if e.size is Some {
                e.size->0
            } else {
                0
            }
            &&& known && meta[key].modified_at is Some ==> row.modified == meta[key].modified_at->0
            &&& !(known && meta[key].modified_at is Some) ==> row.modified == 0
        }),
{
}

/// The ids are those of the sorted entries, one for one.
pub proof fn law_ids_name_the_entries(ids: Seq<String>, entries: Seq<&WallpaperEntry>, i: int)
    requires
        are_ids_of(ids, entries),
        0 <= i < entries.len(),
    ensures
        ids.len() == entries.len(),
        ids[i]@ == entries[i].id@,
{
}

/// The database is asked for the filtered keys exactly if there are filters, and
/// for libraries and then items exactly if there are rules; only what was asked
/// is waited for.
pub proof fn law_database_is_asked_for_what_is_needed(filters: int, sorts: int)
    requires
        0 <= filters,
        0 <= sorts,
    ensures
        entry_run(filters, sorts, seq![]) == if filters >= 1 {
            EntryStep::Ask { query: EntryQuery::FilterKeys }
        } else if sorts >= 1 {
            EntryStep::Ask { query: EntryQuery::Libraries }
        } else {
            EntryStep::Order
        },
        filters >= 1 ==> entry_run(filters, sorts, seq![true]) == entry_run(0, sorts, seq![]),
        filters == 0 && sorts >= 1 ==> entry_run(filters, sorts, seq![true]) == (EntryStep::Ask {
            query: EntryQuery::Items,
        }),
        filters == 0 && sorts >= 1 ==> entry_run(filters, sorts, seq![true, true])
            == EntryStep::Order,
{
    reveal_with_fuel(entry_run, 3);
    assert(seq![true].drop_last() =~= Seq::<bool>::empty());
    assert(seq![true, true].drop_last() =~= seq![true]);
}

} // verus!
