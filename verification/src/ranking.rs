//! The result map: for each value the texts of the formulas that reach it,
//! shortest first and in lexicographic order among texts of one length.

use crate::expression::Formula;
use std::collections::HashMap;
use vstd::prelude::*;
use vstd::string::*;

verus! {

/// How one text stands to another in the order of the result map.
#[derive(Debug, Clone, Copy, PartialEq, Eq, Structural)]
pub enum Rank {
    Before,
    Same,
    After,
}

/// The two texts agree before position `i` and differ at it.
pub open spec fn differs_first_at(a: Seq<char>, b: Seq<char>, i: int) -> bool {
    &&& 0 <= i < a.len()
    &&& i < b.len()
    &&& a[i] != b[i]
    &&& forall|j: int| 0 <= j < i ==> a[j] == b[j]
}

/// `a` comes before `b`: it is shorter, or as long and smaller at the first
/// position where the two differ.
pub open spec fn text_precedes(a: Seq<char>, b: Seq<char>) -> bool {
    ||| a.len() < b.len()
    ||| a.len() == b.len() && exists|i: int|
        differs_first_at(a, b, i) && a[i] < b[i]
}

/// Each text comes before all that follow it, so none occurs twice.
pub open spec fn ranked(list: Seq<String>) -> bool {
    forall|i: int, j: int| 0 <= i < j < list.len() ==> text_precedes(list[i]@, list[j]@)
}

/// The list holds a string that reads `s`.
pub open spec fn holds_text(list: Seq<String>, s: Seq<char>) -> bool {
    exists|i: int| 0 <= i < list.len() && list[i]@ == s
}

/// The map holds the text `s` under the value `v`.
pub open spec fn map_holds(m: Map<i64, Vec<String>>, v: i64, s: Seq<char>) -> bool {
    m.contains_key(v) && holds_text(m[v]@, s)
}

/// One of the first `upto` formulas has the value `v` and the text `s`.
pub open spec fn listed(formulas: Seq<Formula>, upto: int, v: i64, s: Seq<char>) -> bool {
    exists|k: int| 0 <= k < upto && formulas[k].value == v && formulas[k].text@ == s
}

/// No text comes before itself.
pub proof fn lemma_precedes_irreflexive(a: Seq<char>)
    ensures
        !text_precedes(a, a),
{
}

/// The order of texts is transitive.
pub proof fn lemma_precedes_transitive(a: Seq<char>, b: Seq<char>, c: Seq<char>)
    requires
        text_precedes(a, b),
        text_precedes(b, c),
    ensures
        text_precedes(a, c),
{
    if a.len() == b.len() && b.len() == c.len() {
        let i = choose|i: int| differs_first_at(a, b, i) && a[i] < b[i];
        let j = choose|j: int| differs_first_at(b, c, j) && b[j] < c[j];
        let k = if i < j {
            i
        } else {
            j
        };
        assert(differs_first_at(a, c, k) && a[k] < c[k]);
    }
}

/// A ranked list holds no text twice.
pub proof fn lemma_ranked_distinct(list: Seq<String>, i: int, j: int)
    requires
        ranked(list),
        0 <= i < list.len(),
        0 <= j < list.len(),
        i != j,
    ensures
        list[i]@ != list[j]@,
{
    lemma_precedes_irreflexive(list[i]@);
    if i < j {
        assert(text_precedes(list[i]@, list[j]@));
    } else {
        assert(text_precedes(list[j]@, list[i]@));
    }
}

/// Two ranked lists that hold the same texts are the same, text by text:
/// the texts that a list holds settle the list.
pub proof fn lemma_ranked_lists_agree(a: Seq<String>, b: Seq<String>)
    requires
        ranked(a),
        ranked(b),
        forall|s: Seq<char>| holds_text(a, s) <==> holds_text(b, s),
    ensures
        a.len() == b.len(),
        forall|i: int| 0 <= i < a.len() ==> a[i]@ == b[i]@,
    decreases a.len(),
{
    if a.len() == 0 {
        if b.len() > 0 {
            assert(holds_text(b, b[0]@));
        }
    } else if b.len() == 0 {
        assert(holds_text(a, a[0]@));
    } else {
        lemma_heads_agree(a, b);
        let rest_a = a.drop_first();
        let rest_b = b.drop_first();
        assert(ranked(rest_a)) by {
            assert forall|i: int, j: int| 0 <= i < j < rest_a.len() implies text_precedes(
                rest_a[i]@,
                rest_a[j]@,
            ) by {
                assert(text_precedes(a[i + 1]@, a[j + 1]@));
            }
        }
        assert(ranked(rest_b)) by {
            assert forall|i: int, j: int| 0 <= i < j < rest_b.len() implies text_precedes(
                rest_b[i]@,
                rest_b[j]@,
            ) by {
                assert(text_precedes(b[i + 1]@, b[j + 1]@));
            }
        }
        assert forall|s: Seq<char>| holds_text(rest_a, s) <==> holds_text(rest_b, s) by {
            lemma_rest_holds(a, s);
            lemma_rest_holds(b, s);
        }
        lemma_ranked_lists_agree(rest_a, rest_b);
        assert forall|i: int| 0 <= i < a.len() implies a[i]@ == b[i]@ by {
            if i > 0 {
                assert(rest_a[i - 1] == a[i]);
                assert(rest_b[i - 1] == b[i]);
            }
        }
    }
}

/// What follows the head of a ranked list holds the texts of the list but
/// the head's.
proof fn lemma_rest_holds(list: Seq<String>, s: Seq<char>)
    requires
        ranked(list),
        list.len() > 0,
    ensures
        holds_text(list.drop_first(), s) <==> holds_text(list, s) && s != list[0]@,
{
    let rest = list.drop_first();
    if holds_text(rest, s) {
        let k = choose|k: int| 0 <= k < rest.len() && rest[k]@ == s;
        assert(list[k + 1]@ == s);
        lemma_ranked_distinct(list, 0, k + 1);
    }
    if holds_text(list, s) && s != list[0]@ {
        let k = choose|k: int| 0 <= k < list.len() && list[k]@ == s;
        assert(rest[k - 1]@ == s);
    }
}

/// Two ranked lists that hold the same texts start with the same text.
proof fn lemma_heads_agree(a: Seq<String>, b: Seq<String>)
    requires
        ranked(a),
        ranked(b),
        a.len() > 0,
        b.len() > 0,
        forall|s: Seq<char>| holds_text(a, s) <==> holds_text(b, s),
    ensures
        a[0]@ == b[0]@,
{
    assert(holds_text(a, a[0]@));
    assert(holds_text(b, b[0]@));
    let k = choose|k: int| 0 <= k < b.len() && b[k]@ == a[0]@;
    let m = choose|m: int| 0 <= m < a.len() && a[m]@ == b[0]@;
    if k > 0 && m > 0 {
        assert(text_precedes(b[0]@, b[k]@));
        assert(text_precedes(a[0]@, a[m]@));
        lemma_precedes_transitive(a[0]@, b[0]@, a[0]@);
        lemma_precedes_irreflexive(a[0]@);
    }
}

/// Where `a` stands to `b`.
pub fn compare_texts(a: &str, b: &str) -> (r: Rank)
    ensures
        match r {
            Rank::Before => text_precedes(a@, b@),
            Rank::Same => a@ == b@,
            Rank::After => text_precedes(b@, a@),
        },
{
    let la = a.unicode_len();
    let lb = b.unicode_len();
    if la < lb {
        return Rank::Before;
    }
    if la > lb {
        return Rank::After;
    }
    let mut i: usize = 0;
    while i < la
        invariant
            la == a@.len(),
            lb == b@.len(),
            la == lb,
            i <= la,
            forall|j: int| 0 <= j < i ==> a@[j] == b@[j],
        decreases la - i,
    {
        let ca = a.get_char(i);
        let cb = b.get_char(i);
        if ca != cb {
            assert(differs_first_at(a@, b@, i as int));
            assert(differs_first_at(b@, a@, i as int));
            if ca < cb {
                return Rank::Before;
            } else {
                return Rank::After;
            }
        }
        i = i + 1;
    }
    assert(a@ =~= b@);
    Rank::Same
}

/// Puts the text at its place in the list, unless the list holds it. The
/// place is found by halving the part of the list where it can be.
pub fn insert_ranked(list: &mut Vec<String>, text: String)
    requires
        ranked(old(list)@),
    ensures
        ranked(final(list)@),
        forall|s: Seq<char>|
            holds_text(final(list)@, s) <==> (holds_text(old(list)@, s) || s == text@),
{
    let mut pos: usize = 0;
    let mut end: usize = list.len();
    while pos < end
        invariant
            pos <= end <= list.len(),
            list@ == old(list)@,
            ranked(list@),
            forall|j: int| 0 <= j < pos ==> text_precedes(list@[j]@, text@),
            forall|j: int| end <= j < list.len() ==> text_precedes(text@, list@[j]@),
        decreases end - pos,
    {
        let mid = pos + (end - pos) / 2;
        match compare_texts(list[mid].as_str(), text.as_str()) {
            Rank::Before => {
                proof {
                    assert forall|j: int| 0 <= j < mid + 1 implies text_precedes(
                        list@[j]@,
                        text@,
                    ) by {
                        if j < mid {
                            lemma_precedes_transitive(list@[j]@, list@[mid as int]@, text@);
                        }
                    }
                }
                pos = mid + 1;
            },
            Rank::Same => {
                assert(list@[mid as int]@ == text@);
                assert(holds_text(list@, text@));
                return ;
            },
            Rank::After => {
                proof {
                    assert forall|j: int| mid <= j < list.len() implies text_precedes(
                        text@,
                        list@[j]@,
                    ) by {
                        if j > mid {
                            lemma_precedes_transitive(text@, list@[mid as int]@, list@[j]@);
                        }
                    }
                }
                end = mid;
            },
        }
    }
    let ghost before = list@;
    let ghost inserted = text@;
    list.insert(pos, text);
    proof {
        let after = list@;
        assert(after == before.insert(pos as int, after[pos as int]));
        assert(after[pos as int]@ == inserted);
        assert forall|i: int, j: int| 0 <= i < j < after.len() implies text_precedes(
            after[i]@,
            after[j]@,
        ) by {
            if i < pos {
                if j < pos {
                    assert(after[j] == before[j]);
                } else if j > pos {
                    assert(after[j] == before[j - 1]);
                }
                assert(after[i] == before[i]);
            } else if i == pos {
                assert(after[j] == before[j - 1]);
            } else {
                assert(after[i] == before[i - 1]);
                assert(after[j] == before[j - 1]);
            }
        }
        assert forall|s: Seq<char>| holds_text(after, s) <==> (holds_text(before, s) || s
            == inserted) by {
            if holds_text(before, s) {
                let k = choose|k: int| 0 <= k < before.len() && before[k]@ == s;
                if k < pos {
                    assert(after[k] == before[k]);
                } else {
                    assert(after[k + 1] == before[k]);
                }
            }
            if holds_text(after, s) && s != inserted {
                let k = choose|k: int| 0 <= k < after.len() && after[k]@ == s;
                if k < pos {
                    assert(after[k] == before[k]);
                } else {
                    assert(after[k] == before[k - 1]);
                }
            }
        }
    }
}

/// The result map of the formulas: under each value the texts of the
/// formulas with that value, each once, in rank order.
pub fn collect_by_value(formulas: &Vec<Formula>) -> (results: HashMap<i64, Vec<String>>)
    ensures
        forall|v: i64| #[trigger]
            results@.contains_key(v) ==> ranked(results@[v]@) && results@[v]@.len() > 0,
        forall|v: i64, s: Seq<char>| #[trigger]
            map_holds(results@, v, s) <==> listed(formulas@, formulas.len() as int, v, s),
{
    let mut results: HashMap<i64, Vec<String>> = HashMap::new();
    let mut k: usize = 0;
    while k < formulas.len()
        invariant
            k <= formulas.len(),
            forall|v: i64| #[trigger]
                results@.contains_key(v) ==> ranked(results@[v]@) && results@[v]@.len() > 0,
            forall|v: i64, s: Seq<char>| #[trigger]
                map_holds(results@, v, s) <==> listed(formulas@, k as int, v, s),
        decreases formulas.len() - k,
    {
        let value = formulas[k].value;
        let text = formulas[k].text.clone();
        let ghost before = results@;
        let mut list: Vec<String> = match results.remove(&value) {
            Some(found) => found,
            None => Vec::new(),
        };
        let ghost old_list = list@;
        insert_ranked(&mut list, text);
        let ghost new_list = list@;
        results.insert(value, list);
        proof {
            let after = results@;
            assert(holds_text(new_list, formulas@[k as int].text@));
            assert forall|v: i64, s: Seq<char>| #[trigger]
                map_holds(after, v, s) <==> listed(formulas@, k + 1, v, s) by {
                assert(map_holds(before, v, s) <==> listed(formulas@, k as int, v, s));
                if v == value {
                    assert(after[v]@ == new_list);
                    if before.contains_key(v) {
                        assert(old_list == before[v]@);
                    } else {
                        assert(old_list.len() == 0);
                    }
                } else {
                    assert(after.contains_key(v) == before.contains_key(v));
                    if before.contains_key(v) {
                        assert(after[v] == before[v]);
                    }
                }
                if listed(formulas@, k + 1, v, s) {
                    let j = choose|j: int|
                        0 <= j < k + 1 && formulas@[j].value == v && formulas@[j].text@ == s;
                    if j < k {
                        assert(listed(formulas@, k as int, v, s));
                    }
                }
                if listed(formulas@, k as int, v, s) {
                    let j = choose|j: int|
                        0 <= j < k && formulas@[j].value == v && formulas@[j].text@ == s;
                    assert(0 <= j < k + 1);
                }
            }
        }
        k = k + 1;
    }
    results
}

} // verus!
