//! Variable names: the names reserved for gap variables, the alphabetical
//! order of names, and sorted lists of names.

use itertools::Itertools;
use vstd::prelude::*;
use vstd::seq_lib::to_multiset_contains;

verus! {

/// A name reserved for the gap variables of a tableau: one that starts with
/// an underscore.
pub open spec fn is_gap_name(name: Seq<char>) -> bool {
    name.len() > 0 && name[0] == '_'
}

/// The decimal digit for `d < 10`.
pub open spec fn digit(d: nat) -> char {
    if d == 0 {
        '0'
    } else if d == 1 {
        '1'
    } else if d == 2 {
        '2'
    } else if d == 3 {
        '3'
    } else if d == 4 {
        '4'
    } else if d == 5 {
        '5'
    } else if d == 6 {
        '6'
    } else if d == 7 {
        '7'
    } else if d == 8 {
        '8'
    } else {
        '9'
    }
}

/// The decimal numeral of `n`, without leading zeros.
pub open spec fn decimal(n: nat) -> Seq<char>
    decreases n,
{
    if n < 10 {
        seq![digit(n)]
    } else {
        decimal(n / 10).push(digit(n % 10))
    }
}

/// The name of the gap variable of the row with the given number: `_g1`, `_g2`, ...
pub open spec fn gap_name_of(row: nat) -> Seq<char> {
    seq!['_', 'g'] + decimal(row)
}

/// `a` comes before `b` in alphabetical order, or is `b`: the order of the
/// names' characters, the first difference deciding, a prefix first.
pub open spec fn name_le(a: Seq<char>, b: Seq<char>) -> bool
    decreases a.len(),
{
    if a.len() == 0 {
        true
    } else if b.len() == 0 {
        false
    } else if a[0] != b[0] {
        (a[0] as u32) < (b[0] as u32)
    } else {
        name_le(a.skip(1), b.skip(1))
    }
}

/// The names that a list of strings holds.
pub open spec fn names_of(list: Seq<String>) -> Seq<Seq<char>> {
    list.map_values(|s: String| s@)
}

/// The list is in alphabetical order.
pub open spec fn is_sorted(names: Seq<Seq<char>>) -> bool {
    forall|i: int, j: int| 0 <= i < j < names.len() ==> name_le(#[trigger] names[i], #[trigger] names[j])
}

/// Every name is at its own place in the alphabetical order.
pub proof fn lemma_name_le_reflexive(a: Seq<char>)
    ensures
        name_le(a, a),
    decreases a.len(),
{
    if a.len() > 0 {
        lemma_name_le_reflexive(a.skip(1));
    }
}

/// Two names that each come no later than the other are the same name.
pub proof fn lemma_name_le_antisymmetric(a: Seq<char>, b: Seq<char>)
    requires
        name_le(a, b),
        name_le(b, a),
    ensures
        a == b,
    decreases a.len(),
{
    if a.len() == 0 || b.len() == 0 {
        assert(a =~= b);
    } else {
        lemma_name_le_antisymmetric(a.skip(1), b.skip(1));
        assert(a =~= seq![a[0]] + a.skip(1));
        assert(b =~= seq![b[0]] + b.skip(1));
    }
}

/// The list holds the names of the set, each once, in alphabetical order.
pub open spec fn sorted_list_of(names: Seq<Seq<char>>, set: Set<Seq<char>>) -> bool {
    &&& is_sorted(names)
    &&& names.no_duplicates()
    &&& forall|n: Seq<char>| #[trigger] names.contains(n) <==> set.contains(n)
}

/// The names of a finite set in alphabetical order.
pub open spec fn sorted_names(set: Set<Seq<char>>) -> Seq<Seq<char>> {
    choose|names: Seq<Seq<char>>| sorted_list_of(names, set)
}

/// There is one list that holds the names of a set in alphabetical order.
pub proof fn lemma_sorted_list_unique(a: Seq<Seq<char>>, b: Seq<Seq<char>>, set: Set<Seq<char>>)
    requires
        sorted_list_of(a, set),
        sorted_list_of(b, set),
    ensures
        a == b,
    decreases a.len(),
{
    if a.len() == 0 {
        if b.len() > 0 {
            assert(b.contains(b[0]));
            assert(a.contains(b[0]));
        }
        assert(a =~= b);
    } else {
        assert(a.contains(a[0]));
        assert(b.contains(a[0]));
        let j = choose|j: int| 0 <= j < b.len() && b[j] == a[0];
        assert(b.contains(b[0]));
        assert(a.contains(b[0]));
        let i = choose|i: int| 0 <= i < a.len() && a[i] == b[0];
        lemma_name_le_reflexive(a[0]);
        assert(name_le(b[0], a[0])) by {
            if j > 0 {
                assert(name_le(b[0], b[j]));
            }
        }
        assert(name_le(a[0], b[0])) by {
            if i > 0 {
                assert(name_le(a[0], a[i]));
            }
        }
        lemma_name_le_antisymmetric(a[0], b[0]);
        let rest = set.remove(a[0]);
        let ta = a.skip(1);
        let tb = b.skip(1);
        assert forall|n: Seq<char>| #[trigger] ta.contains(n) <==> rest.contains(n) by {
            if ta.contains(n) {
                let k = choose|k: int| 0 <= k < ta.len() && ta[k] == n;
                assert(a[k + 1] == n);
                assert(a.contains(n));
                assert(a[k + 1] != a[0]);
            }
            if rest.contains(n) {
                assert(a.contains(n));
                let k = choose|k: int| 0 <= k < a.len() && a[k] == n;
                assert(ta[k - 1] == n);
            }
        }
        assert forall|n: Seq<char>| #[trigger] tb.contains(n) <==> rest.contains(n) by {
            if tb.contains(n) {
                let k = choose|k: int| 0 <= k < tb.len() && tb[k] == n;
                assert(b[k + 1] == n);
                assert(b.contains(n));
                assert(b[k + 1] != b[0]);
            }
            if rest.contains(n) {
                assert(b.contains(n));
                let k = choose|k: int| 0 <= k < b.len() && b[k] == n;
                assert(tb[k - 1] == n);
            }
        }
        assert(is_sorted(ta)) by {
            assert forall|x: int, y: int| 0 <= x < y < ta.len() implies name_le(
                #[trigger] ta[x],
                #[trigger] ta[y],
            ) by {
                assert(name_le(a[x + 1], a[y + 1]));
            }
        }
        assert(is_sorted(tb)) by {
            assert forall|x: int, y: int| 0 <= x < y < tb.len() implies name_le(
                #[trigger] tb[x],
                #[trigger] tb[y],
            ) by {
                assert(name_le(b[x + 1], b[y + 1]));
            }
        }
        assert(ta.no_duplicates()) by {
            assert forall|x: int, y: int| 0 <= x < ta.len() && 0 <= y < ta.len() && x != y implies ta[x]
                != ta[y] by {
                assert(a[x + 1] != a[y + 1]);
            }
        }
        assert(tb.no_duplicates()) by {
            assert forall|x: int, y: int| 0 <= x < tb.len() && 0 <= y < tb.len() && x != y implies tb[x]
                != tb[y] by {
                assert(b[x + 1] != b[y + 1]);
            }
        }
        lemma_sorted_list_unique(ta, tb, rest);
        assert(a =~= seq![a[0]] + ta);
        assert(b =~= seq![b[0]] + tb);
    }
}

/// `String::push` of std appends the character to the string.
pub assume_specification[ String::push ](s: &mut String, ch: char)
    ensures
        final(s)@ == old(s)@.push(ch),
;

fn digit_char(d: u64) -> (c: char)
    requires
        d < 10,
    ensures
        c == digit(d as nat),
{
    if d == 0 {
        '0'
    } else if d == 1 {
        '1'
    } else if d == 2 {
        '2'
    } else if d == 3 {
        '3'
    } else if d == 4 {
        '4'
    } else if d == 5 {
        '5'
    } else if d == 6 {
        '6'
    } else if d == 7 {
        '7'
    } else if d == 8 {
        '8'
    } else {
        '9'
    }
}

/// Appends the decimal numeral of `n` to the text.
pub(crate) fn push_decimal(text: &mut String, n: u64)
    ensures
        final(text)@ == old(text)@ + decimal(n as nat),
    decreases n,
{
    if n >= 10 {
        push_decimal(text, n / 10);
    }
    text.push(digit_char(n % 10));
    proof {
        if n >= 10 {
            assert(final(text)@ =~= old(text)@ + decimal(n as nat));
        } else {
            assert(final(text)@ =~= old(text)@ + decimal(n as nat));
        }
    }
}

/// The name of the gap variable of the row with the given number.
pub fn gap_name(row: usize) -> (r: String)
    ensures
        r@ == gap_name_of(row as nat),
        is_gap_name(r@),
{
    let mut text = String::new();
    text.push('_');
    text.push('g');
    push_decimal(&mut text, row as u64);
    proof {
        assert(text@ =~= gap_name_of(row as nat));
    }
    text
}

/// Whether the name is reserved for gap variables.
pub fn is_gap(name: &str) -> (b: bool)
    ensures
        b == is_gap_name(name@),
{
    name.unicode_len() > 0 && name.get_char(0) == '_'
}

/// `Itertools::sorted` of itertools, collected: the same strings, each as
/// often as before, in ascending order. The order of strings in std is that
/// of their characters, the first difference deciding.
#[verifier::external_body]
fn sorted_strings(list: Vec<String>) -> (r: Vec<String>)
    ensures
        names_of(r@).to_multiset() == names_of(list@).to_multiset(),
        is_sorted(names_of(r@)),
{
    list.into_iter().sorted().collect()
}

/// Puts a list of distinct names in alphabetical order.
pub(crate) fn sort_names(list: Vec<String>) -> (r: Vec<String>)
    requires
        names_of(list@).no_duplicates(),
    ensures
        is_sorted(names_of(r@)),
        names_of(r@).no_duplicates(),
        r@.len() == list@.len(),
        forall|n: Seq<char>| #[trigger] names_of(r@).contains(n) <==> names_of(list@).contains(n),
        forall|set: Set<Seq<char>>|
            (forall|n: Seq<char>| #[trigger] names_of(list@).contains(n) <==> set.contains(n))
                ==> #[trigger] sorted_list_of(names_of(r@), set) && names_of(r@) == sorted_names(set),
{
    let r = sorted_strings(list);
    proof {
        let before = names_of(list@);
        let after = names_of(r@);
        before.lemma_multiset_has_no_duplicates();
        after.lemma_multiset_has_no_duplicates_conv();
        before.to_multiset_ensures();
        after.to_multiset_ensures();
        assert forall|n: Seq<char>| after.contains(n) <==> before.contains(n) by {
            to_multiset_contains(after, n);
            to_multiset_contains(before, n);
        }
        assert forall|set: Set<Seq<char>>|
            (forall|n: Seq<char>| #[trigger] before.contains(n) <==> set.contains(n)) implies #[trigger] sorted_list_of(
            after,
            set,
        ) && after == sorted_names(set) by {
            assert forall|n: Seq<char>| #[trigger] after.contains(n) <==> set.contains(n) by {
                assert(after.contains(n) <==> before.contains(n));
            }
            lemma_sorted_list_unique(after, sorted_names(set), set);
        }
    }
    r
}

/// Whether the list holds the name.
pub(crate) fn contains_name(list: &Vec<String>, name: &String) -> (b: bool)
    ensures
        b == names_of(list@).contains(name@),
{
    let mut i: usize = 0;
    while i < list.len()
        invariant
            i <= list.len(),
            forall|k: int| 0 <= k < i ==> (#[trigger] names_of(list@)[k]) != name@,
        decreases list.len() - i,
    {
        if list[i] == *name {
            assert(names_of(list@)[i as int] == name@);
            return true;
        }
        i += 1;
    }
    false
}

/// Appends the name to the list unless the list holds it.
pub(crate) fn push_new(list: &mut Vec<String>, name: String)
    requires
        names_of(old(list)@).no_duplicates(),
    ensures
        names_of(final(list)@).no_duplicates(),
        forall|n: Seq<char>|
            #[trigger] names_of(final(list)@).contains(n) <==> (n == name@ || names_of(old(list)@).contains(n)),
{
    let ghost before = names_of(list@);
    let ghost key = name@;
    if !contains_name(list, &name) {
        list.push(name);
        proof {
            let after = names_of(list@);
            assert(after =~= before.push(key));
            assert forall|n: Seq<char>| after.contains(n) <==> (n == key || before.contains(n)) by {
                if before.contains(n) {
                    let k = choose|k: int| 0 <= k < before.len() && before[k] == n;
                    assert(after[k] == n);
                }
                if n == key {
                    assert(after[before.len() as int] == n);
                }
            }
        }
    }
}

} // verus!
