//! The fixed, ordered table of mechanical substitutions.
//!
//! Order matters: a longer token must stand before a shorter token that is
//! one of its substrings, or the shorter rule would corrupt the longer
//! form. The space-before-comma entry handles an enumerator left before a
//! reflowed argument-list comma, where the tightened form has no space; and
//! the final rule undoes the over-qualification artifact that the
//! enumerator rules produce on an already qualified use.

use vstd::prelude::*;

use crate::text::chars_of;
use crate::text::replace_all;
use crate::text::replace_lit;

verus! {

/// The substitution table, in application order.
pub open spec fn replacement_table() -> Seq<(Seq<char>, Seq<char>)> {
    seq![
        ("NOTREACHED_NORETURN"@, "NOTREACHED"@),
        ("ET_GESTURE_TAP_DOWN"@, "EventType::kGestureTapDown"@),
        ("ET_GESTURE_TAP"@, "EventType::kGestureTap"@),
        ("ET_UNKNOWN ,"@, "EventType::kUnknown,"@),
        ("ET_UNKNOWN"@, "EventType::kUnknown"@),
        ("ui::EventType::k"@, "EventType::k"@),
    ]
}

/// Apply each rule in order, each working on the previous rule's output.
pub open spec fn apply_rules(s: Seq<char>, rules: Seq<(Seq<char>, Seq<char>)>) -> Seq<char>
    decreases rules.len(),
{
    if rules.len() == 0 {
        s
    } else {
        apply_rules(replace_lit(s, rules[0].0, rules[0].1), rules.drop_first())
    }
}

/// The full table applied to a normalized removed-lines text.
pub open spec fn transform_removed(s: Seq<char>) -> Seq<char> {
    apply_rules(s, replacement_table())
}

pub open spec fn rule_views(s: Seq<(Vec<char>, Vec<char>)>) -> Seq<(Seq<char>, Seq<char>)> {
    s.map_values(|p: (Vec<char>, Vec<char>)| (p.0@, p.1@))
}

/// The substitution table as executable data.
pub fn replacement_rules() -> (r: Vec<(Vec<char>, Vec<char>)>)
    ensures
        rule_views(r@) == replacement_table(),
{
    let mut r: Vec<(Vec<char>, Vec<char>)> = Vec::new();
    r.push((chars_of("NOTREACHED_NORETURN"), chars_of("NOTREACHED")));
    r.push((chars_of("ET_GESTURE_TAP_DOWN"), chars_of("EventType::kGestureTapDown")));
    r.push((chars_of("ET_GESTURE_TAP"), chars_of("EventType::kGestureTap")));
    r.push((chars_of("ET_UNKNOWN ,"), chars_of("EventType::kUnknown,")));
    r.push((chars_of("ET_UNKNOWN"), chars_of("EventType::kUnknown")));
    r.push((chars_of("ui::EventType::k"), chars_of("EventType::k")));
    proof {
        assert(rule_views(r@) =~= replacement_table());
    }
    r
}

/// Apply the whole substitution table to `text`, in table order.
pub fn apply_replacements(text: &Vec<char>) -> (r: Vec<char>)
    ensures
        r@ == transform_removed(text@),
{
    let rules = replacement_rules();
    let mut cur = crate::text::copy_range(text, 0, text.len());
    let mut k: usize = 0;
    proof {
        assert(cur@ =~= text@);
        assert(rule_views(rules@).skip(0) =~= rule_views(rules@));
    }
    while k < rules.len()
        invariant
            0 <= k <= rules@.len(),
            rule_views(rules@) == replacement_table(),
            transform_removed(text@) == apply_rules(
                cur@,
                rule_views(rules@).skip(k as int),
            ),
        decreases rules@.len() - k,
    {
        let next = replace_all(&cur, &rules[k].0, &rules[k].1);
        proof {
            let rv = rule_views(rules@);
            let rest = rv.skip(k as int);
            assert(rest.len() > 0);
            assert(rest[0] == rv[k as int]);
            assert(rv[k as int] == (rules@[k as int].0@, rules@[k as int].1@));
            assert(apply_rules(cur@, rest) == apply_rules(
                replace_lit(cur@, rest[0].0, rest[0].1),
                rest.drop_first(),
            ));
            assert(rest.drop_first() =~= rv.skip(k + 1));
        }
        cur = next;
        k += 1;
    }
    proof {
        assert(rule_views(rules@).skip(rules@.len() as int)
            =~= Seq::<(Seq<char>, Seq<char>)>::empty());
    }
    cur
}

} // verus!
