use vstd::multiset::Multiset;
use vstd::prelude::*;
use crate::tree::{AttrV, Attribute};

verus! {

/// Lexicographic order of character sequences by code point, which for UTF-8 text is
/// the order of their bytes.
pub open spec fn chars_le(a: Seq<char>, b: Seq<char>) -> bool
    decreases a.len(),
{
    if a.len() == 0 {
        true
    } else if b.len() == 0 {
        false
    } else if a[0] != b[0] {
        a[0] < b[0]
    } else {
        chars_le(a.drop_first(), b.drop_first())
    }
}

/// An absent value comes before any present one.
pub open spec fn value_le(a: Option<Seq<char>>, b: Option<Seq<char>>) -> bool {
    match (a, b) {
        (None, _) => true,
        (Some(_), None) => false,
        (Some(x), Some(y)) => chars_le(x, y),
    }
}

/// Attributes are ordered by name, then by value.
pub open spec fn attr_le(a: AttrV, b: AttrV) -> bool {
    if a.0 == b.0 {
        value_le(a.1, b.1)
    } else {
        chars_le(a.0, b.0)
    }
}

/// `x` placed in front of the first element of `s` that it does not exceed.
pub open spec fn insert_sorted(s: Seq<AttrV>, x: AttrV) -> Seq<AttrV>
    decreases s.len(),
{
    if s.len() == 0 {
        seq![x]
    } else if attr_le(x, s[0]) {
        seq![x] + s
    } else {
        seq![s[0]] + insert_sorted(s.drop_first(), x)
    }
}

/// The attributes in ascending order.
pub open spec fn sort_attrs(s: Seq<AttrV>) -> Seq<AttrV>
    decreases s.len(),
{
    if s.len() == 0 {
        Seq::empty()
    } else {
        insert_sorted(sort_attrs(s.drop_last()), s.last())
    }
}

pub open spec fn is_sorted(s: Seq<AttrV>) -> bool {
    forall|i: int, j: int| 0 <= i < j < s.len() ==> attr_le(#[trigger] s[i], #[trigger] s[j])
}

pub proof fn lemma_chars_le_total(a: Seq<char>, b: Seq<char>)
    ensures
        chars_le(a, b) || chars_le(b, a),
    decreases a.len(),
{
    if a.len() > 0 && b.len() > 0 && a[0] == b[0] {
        lemma_chars_le_total(a.drop_first(), b.drop_first());
    }
}

pub proof fn lemma_chars_le_antisym(a: Seq<char>, b: Seq<char>)
    requires
        chars_le(a, b),
        chars_le(b, a),
    ensures
        a == b,
    decreases a.len(),
{
    if a.len() > 0 {
        lemma_chars_le_antisym(a.drop_first(), b.drop_first());
        assert(a =~= seq![a[0]] + a.drop_first());
        assert(b =~= seq![b[0]] + b.drop_first());
    } else {
        assert(b.len() == 0);
        assert(a =~= b);
    }
}

pub proof fn lemma_chars_le_trans(a: Seq<char>, b: Seq<char>, c: Seq<char>)
    requires
        chars_le(a, b),
        chars_le(b, c),
    ensures
        chars_le(a, c),
    decreases a.len(),
{
    if a.len() > 0 && b.len() > 0 && c.len() > 0 && a[0] == b[0] && b[0] == c[0] {
        lemma_chars_le_trans(a.drop_first(), b.drop_first(), c.drop_first());
    }
}

pub proof fn lemma_attr_le_total(a: AttrV, b: AttrV)
    ensures
        attr_le(a, b) || attr_le(b, a),
{
    lemma_chars_le_total(a.0, b.0);
    match (a.1, b.1) {
        (Some(x), Some(y)) => lemma_chars_le_total(x, y),
        _ => {},
    }
}

pub proof fn lemma_attr_le_antisym(a: AttrV, b: AttrV)
    requires
        attr_le(a, b),
        attr_le(b, a),
    ensures
        a == b,
{
    if a.0 == b.0 {
        match (a.1, b.1) {
            (Some(x), Some(y)) => lemma_chars_le_antisym(x, y),
            _ => {},
        }
    } else {
        lemma_chars_le_antisym(a.0, b.0);
    }
}

pub proof fn lemma_attr_le_trans(a: AttrV, b: AttrV, c: AttrV)
    requires
        attr_le(a, b),
        attr_le(b, c),
    ensures
        attr_le(a, c),
{
    if a.0 == b.0 && b.0 == c.0 {
        match (a.1, b.1, c.1) {
            (Some(x), Some(y), Some(z)) => lemma_chars_le_trans(x, y, z),
            _ => {},
        }
    } else if a.0 == c.0 {
        lemma_chars_le_antisym(a.0, b.0);
    } else if a.0 == b.0 || b.0 == c.0 {
    } else {
        lemma_chars_le_trans(a.0, b.0, c.0);
    }
}

proof fn lemma_insert_sorted_is_insert(s: Seq<AttrV>, x: AttrV) -> (j: int)
    ensures
        0 <= j <= s.len(),
        insert_sorted(s, x) == s.insert(j, x),
    decreases s.len(),
{
    if s.len() == 0 {
        assert(s.insert(0, x) =~= seq![x]);
        0
    } else if attr_le(x, s[0]) {
        assert(s.insert(0, x) =~= seq![x] + s);
        0
    } else {
        let j = lemma_insert_sorted_is_insert(s.drop_first(), x);
        assert(seq![s[0]] + s.drop_first().insert(j, x) =~= s.insert(j + 1, x));
        j + 1
    }
}

proof fn lemma_insert_sorted_sorted(s: Seq<AttrV>, x: AttrV)
    requires
        is_sorted(s),
    ensures
        is_sorted(insert_sorted(s, x)),
    decreases s.len(),
{
    if s.len() == 0 {
    } else if attr_le(x, s[0]) {
        let r = seq![x] + s;
        assert forall|i: int, j: int| 0 <= i < j < r.len() implies attr_le(
            #[trigger] r[i],
            #[trigger] r[j],
        ) by {
            if i == 0 {
                if j > 1 {
                    lemma_attr_le_trans(x, s[0], s[j - 1]);
                }
            } else {
                assert(r[i] == s[i - 1] && r[j] == s[j - 1]);
            }
        }
    } else {
        let t = s.drop_first();
        assert forall|i: int, j: int| 0 <= i < j < t.len() implies attr_le(
            #[trigger] t[i],
            #[trigger] t[j],
        ) by {
            assert(t[i] == s[i + 1] && t[j] == s[j + 1]);
        }
        lemma_insert_sorted_sorted(t, x);
        lemma_attr_le_total(x, s[0]);
        let k = lemma_insert_sorted_is_insert(t, x);
        let u = insert_sorted(t, x);
        let r = seq![s[0]] + u;
        assert forall|i: int, j: int| 0 <= i < j < r.len() implies attr_le(
            #[trigger] r[i],
            #[trigger] r[j],
        ) by {
            if i == 0 {
                let m = j - 1;
                assert(r[j] == u[m]);
                if m < k {
                    assert(u[m] == t[m] && t[m] == s[m + 1]);
                } else if m > k {
                    assert(u[m] == t[m - 1] && t[m - 1] == s[m]);
                }
            } else {
                assert(r[i] == u[i - 1] && r[j] == u[j - 1]);
            }
        }
    }
}

/// The sorted attributes are sorted, and are the same attributes.
pub proof fn lemma_sort_attrs(s: Seq<AttrV>)
    ensures
        is_sorted(sort_attrs(s)),
        sort_attrs(s).to_multiset() == s.to_multiset(),
    decreases s.len(),
{
    broadcast use vstd::seq_lib::group_to_multiset_ensures;

    if s.len() == 0 {
        assert(s.to_multiset() =~= Multiset::empty());
        assert(sort_attrs(s).to_multiset() =~= Multiset::empty());
    } else {
        let init = s.drop_last();
        lemma_sort_attrs(init);
        lemma_insert_sorted_sorted(sort_attrs(init), s.last());
        let j = lemma_insert_sorted_is_insert(sort_attrs(init), s.last());
        assert(init.push(s.last()) =~= s);
    }
}

proof fn lemma_sorted_unique(a: Seq<AttrV>, b: Seq<AttrV>)
    requires
        is_sorted(a),
        is_sorted(b),
        a.to_multiset() == b.to_multiset(),
    ensures
        a == b,
    decreases a.len(),
{
    broadcast use vstd::seq_lib::group_to_multiset_ensures;

    vstd::seq_lib::to_multiset_len(a);
    vstd::seq_lib::to_multiset_len(b);
    if a.len() == 0 {
        assert(b.len() == 0);
        assert(a =~= b);
    } else {
        assert(b.len() == a.len());
        vstd::seq_lib::to_multiset_contains(a, a[0]);
        vstd::seq_lib::to_multiset_contains(b, a[0]);
        assert(a.contains(a[0]));
        assert(b.contains(a[0]));
        let k = choose|k: int| 0 <= k < b.len() && b[k] == a[0];
        vstd::seq_lib::to_multiset_contains(a, b[0]);
        vstd::seq_lib::to_multiset_contains(b, b[0]);
        assert(b.contains(b[0]));
        assert(a.contains(b[0]));
        let m = choose|m: int| 0 <= m < a.len() && a[m] == b[0];
        if k > 0 {
            assert(attr_le(b[0], b[k]));
        } else {
            lemma_attr_le_total(b[0], b[0]);
        }
        if m > 0 {
            assert(attr_le(a[0], a[m]));
        } else {
            lemma_attr_le_total(a[0], a[0]);
        }
        lemma_attr_le_antisym(a[0], b[0]);
        assert(a.remove(0) =~= a.drop_first());
        assert(b.remove(0) =~= b.drop_first());
        vstd::seq_lib::to_multiset_remove(a, 0);
        vstd::seq_lib::to_multiset_remove(b, 0);
        let a1 = a.drop_first();
        let b1 = b.drop_first();
        assert forall|i: int, j: int| 0 <= i < j < a1.len() implies attr_le(
            #[trigger] a1[i],
            #[trigger] a1[j],
        ) by {
            assert(a1[i] == a[i + 1] && a1[j] == a[j + 1]);
        }
        assert forall|i: int, j: int| 0 <= i < j < b1.len() implies attr_le(
            #[trigger] b1[i],
            #[trigger] b1[j],
        ) by {
            assert(b1[i] == b[i + 1] && b1[j] == b[j + 1]);
        }
        lemma_sorted_unique(a1, b1);
        assert(a =~= seq![a[0]] + a1);
        assert(b =~= seq![b[0]] + b1);
    }
}

/// Sorting depends only on which attributes there are, not on the order they come in.
pub proof fn lemma_sort_ignores_order(a: Seq<AttrV>, b: Seq<AttrV>)
    requires
        a.to_multiset() == b.to_multiset(),
    ensures
        sort_attrs(a) == sort_attrs(b),
{
    lemma_sort_attrs(a);
    lemma_sort_attrs(b);
    lemma_sorted_unique(sort_attrs(a), sort_attrs(b));
}

/// Compares two strings by code point.
fn str_le(a: &str, b: &str) -> (r: bool)
    ensures
        r == chars_le(a@, b@),
{
    let x = crate::text::chars_of(a);
    let y = crate::text::chars_of(b);
    let mut i: usize = 0;
    assert(a@.skip(0) =~= a@ && b@.skip(0) =~= b@);
    while i < x.len() && i < y.len() && x[i] == y[i]
        invariant
            i <= x@.len(),
            i <= y@.len(),
            x@ == a@,
            y@ == b@,
            chars_le(a@, b@) == chars_le(a@.skip(i as int), b@.skip(i as int)),
        decreases x.len() - i,
    {
        proof {
            let s = a@.skip(i as int);
            let t = b@.skip(i as int);
            assert(s.drop_first() =~= a@.skip(i + 1));
            assert(t.drop_first() =~= b@.skip(i + 1));
        }
        i = i + 1;
    }
    if i == x.len() {
        true
    } else if i == y.len() {
        false
    } else {
        x[i] < y[i]
    }
}

/// Compares two attributes by name, then by value.
fn attribute_le(a: &Attribute, b: &Attribute) -> (r: bool)
    ensures
        r == attr_le(a@, b@),
{
    let same_name = a.name == b.name;
    if same_name {
        match (&a.value, &b.value) {
            (None, _) => true,
            (Some(_), None) => false,
            (Some(x), Some(y)) => str_le(x.as_str(), y.as_str()),
        }
    } else {
        str_le(a.name.as_str(), b.name.as_str())
    }
}

proof fn lemma_insert_at(s: Seq<AttrV>, x: AttrV, j: int)
    requires
        0 <= j <= s.len(),
        forall|k: int| 0 <= k < j ==> !attr_le(x, #[trigger] s[k]),
        j == s.len() || attr_le(x, s[j]),
    ensures
        insert_sorted(s, x) == s.take(j) + seq![x] + s.skip(j),
    decreases j,
{
    if j == 0 {
        if s.len() == 0 {
            assert(s.take(0) + seq![x] + s.skip(0) =~= seq![x]);
        } else {
            assert(s.take(0) + seq![x] + s.skip(0) =~= seq![x] + s);
        }
    } else {
        let t = s.drop_first();
        assert forall|k: int| 0 <= k < j - 1 implies !attr_le(x, #[trigger] t[k]) by {
            assert(t[k] == s[k + 1]);
        }
        lemma_insert_at(t, x, j - 1);
        assert(seq![s[0]] + (t.take(j - 1) + seq![x] + t.skip(j - 1)) =~= s.take(j) + seq![x]
            + s.skip(j));
    }
}

/// The attributes of an element in ascending order of name, then value.
pub fn sorted_attributes(attrs: &Vec<Attribute>) -> (r: Vec<&Attribute>)
    ensures
        r@.map_values(|a: &Attribute| a@) == sort_attrs(attrs@.map_values(|a: Attribute| a@)),
{
    let ghost all = attrs@.map_values(|a: Attribute| a@);
    let mut out: Vec<&Attribute> = Vec::new();
    let mut i: usize = 0;
    while i < attrs.len()
        invariant
            i <= attrs@.len(),
            all == attrs@.map_values(|a: Attribute| a@),
            out@.map_values(|a: &Attribute| a@) == sort_attrs(all.take(i as int)),
        decreases attrs.len() - i,
    {
        let x = &attrs[i];
        let ghost before = out@.map_values(|a: &Attribute| a@);
        let mut j: usize = 0;
        while j < out.len() && !attribute_le(x, out[j])
            invariant
                j <= out@.len(),
                before == out@.map_values(|a: &Attribute| a@),
                forall|k: int| 0 <= k < j ==> !attr_le(x@, #[trigger] before[k]),
            decreases out.len() - j,
        {
            j = j + 1;
        }
        proof {
            lemma_insert_at(before, x@, j as int);
            assert(all.take(i + 1).drop_last() =~= all.take(i as int));
            assert(all.take(i + 1).last() == x@);
        }
        out.insert(j, x);
        proof {
            assert(out@.map_values(|a: &Attribute| a@) =~= before.take(j as int) + seq![x@]
                + before.skip(j as int));
        }
        i = i + 1;
    }
    assert(all.take(attrs@.len() as int) =~= all);
    out
}

} // verus!
