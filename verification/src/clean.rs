//! Removes the label that a model sometimes puts in front of its answer.
//!
//! Fences and quotes around an answer stay: they may be what the image shows.

use vstd::prelude::*;

use crate::text::{chars_of, cut_blank, skip_blank, string_of, trim};

verus! {

/// The texts of a list of labels.
pub open spec fn label_texts(labels: Seq<&str>) -> Seq<Seq<char>> {
    labels.map_values(|l: &str| l@)
}

/// Whether `label` stands at the start of `s` and something other than white space follows it.
pub open spec fn is_labelled(s: Seq<char>, label: Seq<char>) -> bool {
    label.is_prefix_of(s) && trim(s.skip(label.len() as int)).len() > 0
}

/// `s` without the first of the labels that stands at its start with something after it.
pub open spec fn unlabelled(s: Seq<char>, labels: Seq<Seq<char>>) -> Seq<char>
    decreases labels.len(),
{
    if labels.len() == 0 {
        s
    } else if is_labelled(s, labels[0]) {
        trim(s.skip(labels[0].len() as int))
    } else {
        unlabelled(s, labels.drop_first())
    }
}

/// Whether `label` stands at position `from` of `v[..to]`.
fn starts_with(v: &[char], from: usize, to: usize, label: &[char]) -> (r: bool)
    requires
        from <= to <= v@.len(),
    ensures
        r == label@.is_prefix_of(v@.subrange(from as int, to as int)),
{
    let ghost s = v@.subrange(from as int, to as int);
    if label.len() > to - from {
        return false;
    }
    let mut i: usize = 0;
    while i < label.len()
        invariant
            from <= to <= v@.len(),
            s == v@.subrange(from as int, to as int),
            label@.len() <= s.len(),
            i <= label@.len(),
            forall|k: int| 0 <= k < i ==> label@[k] == s[k],
        decreases label.len() - i,
    {
        if v[from + i] != label[i] {
            proof {
                if label@.is_prefix_of(s) {
                    assert(label@[i as int] == s.subrange(0, label@.len() as int)[i as int]);
                }
            }
            return false;
        }
        i = i + 1;
    }
    assert(label@ =~= s.subrange(0, label@.len() as int));
    true
}

/// The text without white space around it and without a label at its very start. A label in the
/// middle is content, and an answer that is nothing but a label is kept.
pub fn strip_leading_label(text: &str, labels: &[&str]) -> (r: String)
    ensures
        r@ == unlabelled(trim(text@), label_texts(labels@)),
{
    let v = chars_of(text);
    assert(v@.subrange(0, v@.len() as int) =~= text@);
    let from: usize = skip_blank(v.as_slice(), 0, v.len());
    let to: usize = cut_blank(v.as_slice(), from, v.len());
    let ghost s = v@.subrange(from as int, to as int);
    let ghost all = label_texts(labels@);
    let mut i: usize = 0;
    assert(all.skip(0) =~= all);
    while i < labels.len()
        invariant
            from <= to <= v@.len(),
            s == v@.subrange(from as int, to as int),
            s == trim(text@),
            all == label_texts(labels@),
            i <= labels@.len(),
            unlabelled(s, all) == unlabelled(s, all.skip(i as int)),
        decreases labels.len() - i,
    {
        let label = chars_of(labels[i]);
        let ghost rest = all.skip(i as int);
        proof {
            assert(rest[0] == label@);
            assert(rest.drop_first() =~= all.skip(i + 1));
        }
        if starts_with(v.as_slice(), from, to, label.as_slice()) {
            let after: usize = from + label.len();
            proof {
                assert(s.skip(label@.len() as int) =~= v@.subrange(after as int, to as int));
            }
            let a: usize = skip_blank(v.as_slice(), after, to);
            let b: usize = cut_blank(v.as_slice(), a, to);
            if a < b {
                return string_of(v.as_slice(), a, b);
            }
        }
        i = i + 1;
    }
    string_of(v.as_slice(), from, to)
}

/// Stripping never empties a text that has something in it.
pub proof fn stripping_keeps_something(s: Seq<char>, labels: Seq<Seq<char>>)
    requires
        trim(s).len() > 0,
    ensures
        unlabelled(trim(s), labels).len() > 0,
    decreases labels.len(),
{
    strip_keeps(trim(s), labels);
}

proof fn strip_keeps(s: Seq<char>, labels: Seq<Seq<char>>)
    requires
        s.len() > 0,
    ensures
        unlabelled(s, labels).len() > 0,
    decreases labels.len(),
{
    if labels.len() > 0 && !is_labelled(s, labels[0]) {
        strip_keeps(s, labels.drop_first());
    }
}

/// A text that begins with none of the labels is only trimmed.
pub proof fn unlabelled_text_is_untouched(s: Seq<char>, labels: Seq<Seq<char>>)
    requires
        forall|i: int| 0 <= i < labels.len() ==> !(#[trigger] labels[i]).is_prefix_of(s),
    ensures
        unlabelled(s, labels) == s,
    decreases labels.len(),
{
    if labels.len() > 0 {
        let rest = labels.drop_first();
        assert forall|i: int| 0 <= i < rest.len() implies !(#[trigger] rest[i]).is_prefix_of(s) by {
            assert(rest[i] == labels[i + 1]);
        }
        unlabelled_text_is_untouched(s, rest);
    }
}

proof fn the_first_label_goes(s: Seq<char>, labels: Seq<Seq<char>>, k: int)
    requires
        0 <= k < labels.len(),
        is_labelled(s, labels[k]),
        forall|j: int| 0 <= j < k ==> !is_labelled(s, #[trigger] labels[j]),
    ensures
        unlabelled(s, labels) == trim(s.skip(labels[k].len() as int)),
    decreases k,
{
    if k > 0 {
        assert(!is_labelled(s, labels[0]));
        let rest = labels.drop_first();
        assert(rest[k - 1] == labels[k]);
        assert forall|j: int| 0 <= j < k - 1 implies !is_labelled(s, #[trigger] rest[j]) by {
            assert(rest[j] == labels[j + 1]);
        }
        the_first_label_goes(s, rest, k - 1);
    }
}

/// A label at the start goes, with the white space after it, if text is left; of several labels it is
/// the first in the list that does. A text without a label keeps every character but the white space
/// around it, and nothing is ever emptied.
pub proof fn only_a_leading_label_goes(text: &str, labels: &[&str], r: String, k: int)
    requires
        call_ensures(strip_leading_label, (text, labels), r),
    ensures
        0 <= k < labels@.len() && labels@[k]@.is_prefix_of(trim(text@)) && trim(
            trim(text@).skip(labels@[k]@.len() as int),
        ).len() > 0 && (forall|j: int|
            0 <= j < k ==> !(#[trigger] labels@[j])@.is_prefix_of(trim(text@))) ==> r@ == trim(
            trim(text@).skip(labels@[k]@.len() as int),
        ),
        (forall|j: int|
            0 <= j < labels@.len() ==> !(#[trigger] labels@[j])@.is_prefix_of(trim(text@))) ==> r@
            == trim(text@),
        trim(text@).len() > 0 ==> r@.len() > 0,
{
    let l = label_texts(labels@);
    let s = trim(text@);
    if 0 <= k < labels@.len() && labels@[k]@.is_prefix_of(s) && trim(
        s.skip(labels@[k]@.len() as int),
    ).len() > 0 && (forall|j: int| 0 <= j < k ==> !(#[trigger] labels@[j])@.is_prefix_of(s)) {
        assert(l[k] == labels@[k]@);
        assert forall|j: int| 0 <= j < k implies !is_labelled(s, #[trigger] l[j]) by {
            assert(l[j] == labels@[j]@);
        }
        the_first_label_goes(s, l, k);
    }
    if forall|j: int| 0 <= j < labels@.len() ==> !(#[trigger] labels@[j])@.is_prefix_of(s) {
        assert forall|j: int| 0 <= j < l.len() implies !(#[trigger] l[j]).is_prefix_of(s) by {
            assert(l[j] == labels@[j]@);
        }
        unlabelled_text_is_untouched(s, l);
    }
    if s.len() > 0 {
        stripping_keeps_something(text@, l);
    }
}

} // verus!
