//! Segment files: how they are named, and which of a directory's names are
//! segments.

use vstd::prelude::*;

use crate::decimal::{
    append_padded, decimal_digits, decimal_value, law_padded_digits_spell_their_number,
    law_padding_fills_up_with_zeros, padded_digits, parse_u64,
};
use crate::lines::text_views;
use crate::text::{
    law_prefix_and_rest_make_the_text, strip_prefix, strip_suffix, without_prefix, without_suffix,
};

verus! {

/// The name of the file that holds segment `id`.
pub open spec fn segment_name(id: u64) -> Seq<char> {
    "segment-"@ + padded_digits(id as nat, 6) + ".jsonl"@
}

/// The segment that a file name stands for, if it is a segment's.
pub open spec fn segment_id_of(name: Seq<char>) -> Option<u64> {
    match without_prefix(name, "segment-"@) {
        None => None,
        Some(rest) => match without_suffix(rest, ".jsonl"@) {
            None => None,
            Some(number) => match decimal_value(number) {
                Some(n) if n <= u64::MAX => Some(n as u64),
                _ => None,
            },
        },
    }
}

/// The segments among the names of a directory, in the order of the names.
pub open spec fn segment_ids(names: Seq<Seq<char>>) -> Seq<u64> {
    names.filter_map(|name: Seq<char>| segment_id_of(name))
}

/// `ids` from the smallest to the largest.
pub open spec fn ascending(ids: Seq<u64>) -> Seq<u64> {
    ids.sort_by(|a: u64, b: u64| a <= b)
}

/// The path of segment `id`, relative to the directory of the log.
pub fn segment_path(id: u64) -> (r: String)
    ensures
        r@ == segment_name(id),
{
    let mut path: String = String::new();
    path.append("segment-");
    append_padded(&mut path, id);
    path.append(".jsonl");
    proof {
        assert(path@ =~= segment_name(id));
    }
    path
}

/// The segment that a file name stands for, if it is a segment's.
pub fn segment_id(name: &str) -> (r: Option<u64>)
    ensures
        r == segment_id_of(name@),
{
    match strip_prefix(name, "segment-") {
        None => None,
        Some(rest) => match strip_suffix(rest, ".jsonl") {
            None => None,
            Some(number) => parse_u64(number),
        },
    }
}

/// The segments among the names of a directory, in the order of the names.
pub fn list_segments(names: &Vec<String>) -> (r: Vec<u64>)
    ensures
        r@ == segment_ids(text_views(names@)),
{
    let ghost views = text_views(names@);
    let ghost parse = |name: Seq<char>| segment_id_of(name);
    let mut out: Vec<u64> = Vec::new();
    proof {
        assert(views.take(0) =~= Seq::<Seq<char>>::empty());
    }
    for i in 0..names.len()
        invariant
            views == text_views(names@),
            parse == (|name: Seq<char>| segment_id_of(name)),
            out@ == views.take(i as int).filter_map(parse),
    {
        proof {
            views.lemma_filter_map_take_succ(parse, i as int);
        }
        if let Some(id) = segment_id(names[i].as_str()) {
            out.push(id);
        }
    }
    proof {
        assert(views.take(names@.len() as int) =~= views);
    }
    out
}

/// Trusted: `sort_unstable` on a slice of `u64` puts its elements in ascending
/// order and keeps every one of them.
#[verifier::external_body]
fn sort_ids(ids: &mut Vec<u64>)
    ensures
        vstd::relations::sorted_by(final(ids)@, |a: u64, b: u64| a <= b),
        final(ids)@.to_multiset() == old(ids)@.to_multiset(),
{
    ids.sort_unstable();
}

/// The segments among the names of a directory, from the oldest to the newest.
pub fn sorted_segments(names: &Vec<String>) -> (r: Vec<u64>)
    ensures
        r@ == ascending(segment_ids(text_views(names@))),
{
    let mut ids: Vec<u64> = list_segments(names);
    let ghost listed = ids@;
    sort_ids(&mut ids);
    proof {
        let leq = |a: u64, b: u64| a <= b;
        assert(vstd::relations::total_ordering(leq));
        listed.lemma_sort_by_ensures(leq);
        vstd::seq_lib::lemma_sorted_unique(ids@, listed.sort_by(leq), leq);
    }
    ids
}

/// A segment's file name is recognized as that segment's.
pub proof fn law_segment_name_is_recognized(id: u64)
    ensures
        segment_id_of(segment_name(id)) == Some(id),
{
    law_padded_digits_spell_their_number(id as nat, 6);
    let name = segment_name(id);
    let number = padded_digits(id as nat, 6);
    let prefix = "segment-"@;
    let suffix = ".jsonl"@;
    assert(name.take(prefix.len() as int) =~= prefix);
    assert(name.skip(prefix.len() as int) =~= number + suffix);
    assert((number + suffix).skip(number.len() as int) =~= suffix);
    assert((number + suffix).take(number.len() as int) =~= number);
}

/// Two segments never share a file name.
pub proof fn law_segment_names_are_distinct(a: u64, b: u64)
    requires
        a != b,
    ensures
        segment_name(a) != segment_name(b),
{
    law_segment_name_is_recognized(a);
    law_segment_name_is_recognized(b);
}

/// Sorting segments keeps every one of them and puts none behind a larger one.
pub proof fn law_ascending_keeps_all(ids: Seq<u64>)
    ensures
        ascending(ids).to_multiset() == ids.to_multiset(),
        forall|i: int, j: int|
            0 <= i < j < ascending(ids).len() ==> ascending(ids)[i] <= ascending(ids)[j],
{
    let leq = |a: u64, b: u64| a <= b;
    assert(vstd::relations::total_ordering(leq));
    ids.lemma_sort_by_ensures(leq);
    let s = ascending(ids);
    assert forall|i: int, j: int| 0 <= i < j < s.len() implies s[i] <= s[j] by {
        assert(leq(s[i], s[j]));
    }
}

/// A segment's file name is `segment-`, its number in six digits or more, and
/// `.jsonl`. There is no zero in front of a longer number.
pub proof fn law_segment_name_spells_its_number(id: u64)
    ensures
        ({
            let name = segment_name(id);
            let number = name.subrange(8, name.len() - 6);
            &&& name == "segment-"@ + number + ".jsonl"@
            &&& number.len() >= 6
            &&& forall|i: int| 0 <= i < number.len() ==> '0' <= #[trigger] number[i] <= '9'
            &&& decimal_value(number) == Some(id as nat)
            &&& number.len() > 6 ==> number[0] != '0'
        }),
{
    reveal_strlit("segment-");
    reveal_strlit(".jsonl");
    law_padding_fills_up_with_zeros(id as nat, 6);
    let name = segment_name(id);
    let number = padded_digits(id as nat, 6);
    assert(name.subrange(8, name.len() - 6) =~= number);
    if id == 0 {
        assert(decimal_digits(0).len() == 1);
    }
}

/// A file is a segment's exactly where its name is `segment-`, a number that
/// fits, and `.jsonl`; the number is the segment's.
pub proof fn law_segment_is_known_by_its_name(name: Seq<char>, number: Seq<char>, id: u64)
    ensures
        name == "segment-"@ + number + ".jsonl"@ ==> (segment_id_of(name) == Some(id)
            <==> decimal_value(number) == Some(id as nat)),
        segment_id_of(name) is Some ==> exists|n: Seq<char>|
            name == "segment-"@ + n + ".jsonl"@ && #[trigger] decimal_value(n) is Some,
{
    let prefix = "segment-"@;
    let suffix = ".jsonl"@;
    if name == prefix + number + suffix {
        assert(name =~= prefix + (number + suffix));
        law_prefix_and_rest_make_the_text(name, prefix, number + suffix);
        law_prefix_and_rest_make_the_text(number + suffix, suffix, number);
    }
    if segment_id_of(name) is Some {
        let rest = without_prefix(name, prefix)->0;
        let n = without_suffix(rest, suffix)->0;
        law_prefix_and_rest_make_the_text(name, prefix, rest);
        law_prefix_and_rest_make_the_text(rest, suffix, n);
        assert(name =~= prefix + n + suffix);
        assert(decimal_value(n) is Some);
    }
}

/// A listing gives the segments among its names in the order of the names, each
/// name by itself.
pub proof fn law_listing_takes_every_segment(names: Seq<Seq<char>>, name: Seq<char>)
    ensures
        segment_ids(Seq::empty()).len() == 0,
        segment_id_of(name) matches Some(id) ==> segment_ids(names.push(name)) == segment_ids(
            names,
        ).push(id),
        segment_id_of(name) is None ==> segment_ids(names.push(name)) == segment_ids(names),
{
    let parse = |n: Seq<char>| segment_id_of(n);
    assert(names.push(name).drop_last() =~= names);
    if let Some(id) = segment_id_of(name) {
        assert(segment_ids(names) + seq![id] =~= segment_ids(names).push(id));
    }
}

} // verus!
