//! Turning query results into display items: resolving the checked pointer
//! projections against each document and deriving the display string.

use vstd::prelude::*;

verus! {

use vstd::string::StringExecFns;
use crate::engine::views_of;
use crate::pointer::{display_resolved, resolve_pointer};
use crate::{Item, PointerState};

/// The projections the checked pointers (in list order) add to a document.
pub open spec fn checked_resolved(text: Seq<char>, ps: Seq<PointerState>) -> Seq<Seq<char>>
    decreases ps.len(),
{
    if ps.len() == 0 {
        Seq::empty()
    } else {
        checked_resolved(text, ps.drop_last()) + if ps.last().checked {
            seq![display_resolved(text, ps.last().text@)]
        } else {
            Seq::empty()
        }
    }
}

/// The parts joined with single spaces.
pub open spec fn join_spaces_spec(parts: Seq<Seq<char>>) -> Seq<char>
    decreases parts.len(),
{
    if parts.len() == 0 {
        Seq::empty()
    } else if parts.len() == 1 {
        parts[0]
    } else {
        join_spaces_spec(parts.drop_last()) + seq![' '] + parts.last()
    }
}

/// Joins strings with single spaces.
#[verifier::loop_isolation(false)]
pub fn join_spaces(parts: &Vec<String>) -> (r: String)
    ensures
        r@ == join_spaces_spec(views_of(parts@)),
{
    let ghost views = views_of(parts@);
    let mut r = String::new();
    let mut i: usize = 0;
    while i < parts.len()
        invariant
            i <= parts@.len(),
            views == views_of(parts@),
            r@ == join_spaces_spec(views.subrange(0, i as int)),
        decreases parts@.len() - i,
    {
        if i > 0 {
            r.append(" ");
            proof {
                reveal_strlit(" ");
            }
        }
        r.append(parts[i].as_str());
        i = i + 1;
        proof {
            let pre = views.subrange(0, i - 1);
            let cur = views.subrange(0, i as int);
            assert(cur.drop_last() =~= pre);
            assert(cur.last() == views[i - 1]);
            if i == 1 {
                assert(r@ =~= join_spaces_spec(cur));
            } else {
                assert(r@ =~= join_spaces_spec(pre) + seq![' '] + views[i - 1]);
            }
        }
    }
    proof {
        assert(views.subrange(0, views.len() as int) =~= views);
    }
    r
}

/// Pushes, for every checked pointer, its resolution against each item's
/// text onto that item's projections, in pointer-list order. Returns
/// whether no pointer was checked at all.
#[verifier::loop_isolation(false)]
pub fn resolve_pointers(items: &mut Vec<Item>, pointer_state: &Vec<PointerState>) -> (empty_pointer:
    bool)
    ensures
        final(items)@.len() == old(items)@.len(),
        forall|i: int|
            0 <= i < final(items)@.len() ==> (#[trigger] final(items)@[i]).text@ == old(items)@[i].text@,
        forall|i: int|
            0 <= i < final(items)@.len() ==> views_of((#[trigger] final(items)@[i]).pointers@)
                == views_of(old(items)@[i].pointers@) + checked_resolved(
                old(items)@[i].text@,
                pointer_state@,
            ),
        empty_pointer == forall|p: int|
            0 <= p < pointer_state@.len() ==> !(#[trigger] pointer_state@[p]).checked,
{
    let ghost ps = pointer_state@;
    let ghost base = items@;
    let mut empty_pointer: bool = true;
    let mut p: usize = 0;
    while p < pointer_state.len()
        invariant
            p <= ps.len(),
            ps == pointer_state@,
            items@.len() == base.len(),
            forall|i: int| 0 <= i < items@.len() ==> (#[trigger] items@[i]).text@ == base[i].text@,
            forall|i: int|
                0 <= i < items@.len() ==> views_of((#[trigger] items@[i]).pointers@) == views_of(
                    base[i].pointers@,
                ) + checked_resolved(base[i].text@, ps.subrange(0, p as int)),
            empty_pointer == forall|k: int| 0 <= k < p ==> !(#[trigger] ps[k]).checked,
        decreases ps.len() - p,
    {
        if pointer_state[p].checked {
            let mut i: usize = 0;
            let n: usize = items.len();
            while i < n
                invariant
                    i <= n,
                    p < ps.len(),
                    ps == pointer_state@,
                    ps[p as int].checked,
                    n == items@.len() == base.len(),
                    forall|k: int|
                        0 <= k < items@.len() ==> (#[trigger] items@[k]).text@ == base[k].text@,
                    forall|k: int|
                        0 <= k < i ==> views_of((#[trigger] items@[k]).pointers@) == views_of(
                            base[k].pointers@,
                        ) + checked_resolved(base[k].text@, ps.subrange(0, p + 1)),
                    forall|k: int|
                        i <= k < n ==> views_of((#[trigger] items@[k]).pointers@) == views_of(
                            base[k].pointers@,
                        ) + checked_resolved(base[k].text@, ps.subrange(0, p as int)),
                decreases n - i,
            {
                let ghost before = items@[i as int].pointers@;
                let resolved = resolve_pointer(items[i].text.as_str(), pointer_state[p].text.as_str());
                assert(resolved@ == display_resolved(base[i as int].text@, ps[p as int].text@));
                let entry = &mut items[i];
                entry.pointers.push(resolved);
                i = i + 1;
                proof {
                    let k = i - 1;
                    assert(views_of(items@[k].pointers@) =~= views_of(before).push(
                        display_resolved(base[k].text@, ps[p as int].text@),
                    ));
                    assert(ps.subrange(0, p + 1).drop_last() =~= ps.subrange(0, p as int));
                    assert(ps.subrange(0, p + 1).last() == ps[p as int]);
                    assert(checked_resolved(base[k].text@, ps.subrange(0, p + 1))
                        =~= checked_resolved(base[k].text@, ps.subrange(0, p as int)) + seq![
                        display_resolved(base[k].text@, ps[p as int].text@),
                    ]);
                    assert(views_of(items@[k].pointers@) =~= views_of(base[k].pointers@)
                        + checked_resolved(base[k].text@, ps.subrange(0, p + 1)));
                }
            }
            empty_pointer = false;
        } else {
            assert forall|k: int|
                0 <= k < items@.len() implies views_of((#[trigger] items@[k]).pointers@)
                == views_of(base[k].pointers@) + checked_resolved(
                base[k].text@,
                ps.subrange(0, p + 1),
            ) by {
                assert(ps.subrange(0, p + 1).drop_last() =~= ps.subrange(0, p as int));
                assert(!ps.subrange(0, p + 1).last().checked);
                assert(checked_resolved(base[k].text@, ps.subrange(0, p + 1)) =~= checked_resolved(
                    base[k].text@,
                    ps.subrange(0, p as int),
                ));
            }
        }
        p = p + 1;
        assert(empty_pointer == forall|k: int| 0 <= k < p ==> !(#[trigger] ps[k]).checked) by {
            if empty_pointer {
                assert(!ps[p - 1].checked);
            }
        }
    }
    proof {
        assert(ps.subrange(0, ps.len() as int) =~= ps);
    }
    empty_pointer
}

/// Derives each item's display string: when no pointer is checked, the raw
/// document text; otherwise the item's resolved projections (the checked
/// pointers' resolutions, appended in order) joined with single spaces.
#[verifier::loop_isolation(false)]
pub fn resolve(items: &mut Vec<Item>, pointer_state: &Vec<PointerState>)
    ensures
        final(items)@.len() == old(items)@.len(),
        forall|i: int|
            0 <= i < final(items)@.len() ==> (#[trigger] final(items)@[i]).text@ == old(items)@[i].text@,
        forall|i: int|
            0 <= i < final(items)@.len() ==> views_of((#[trigger] final(items)@[i]).pointers@)
                == views_of(old(items)@[i].pointers@) + checked_resolved(
                old(items)@[i].text@,
                pointer_state@,
            ),
        (forall|p: int| 0 <= p < pointer_state@.len() ==> !(#[trigger] pointer_state@[p]).checked)
            ==> forall|i: int|
            0 <= i < final(items)@.len() ==> (#[trigger] final(items)@[i]).view@ == final(items)@[i].text@,
        (exists|p: int| 0 <= p < pointer_state@.len() && (#[trigger] pointer_state@[p]).checked)
            ==> forall|i: int|
            0 <= i < final(items)@.len() ==> (#[trigger] final(items)@[i]).view@
                == join_spaces_spec(views_of(final(items)@[i].pointers@)),
{
    let empty_pointer = resolve_pointers(items, pointer_state);
    let n: usize = items.len();
    let ghost mid = items@;
    if empty_pointer {
        let mut i: usize = 0;
        while i < n
            invariant
                i <= n,
                n == items@.len() == mid.len(),
                forall|k: int| 0 <= k < items@.len() ==> (#[trigger] items@[k]).text@ == mid[k].text@,
                forall|k: int|
                    0 <= k < items@.len() ==> (#[trigger] items@[k]).pointers@ == mid[k].pointers@,
                forall|k: int| 0 <= k < i ==> (#[trigger] items@[k]).view@ == items@[k].text@,
            decreases n - i,
        {
            let text_copy = items[i].text.clone();
            let entry = &mut items[i];
            entry.view = text_copy;
            i = i + 1;
        }
    } else {
        let mut i: usize = 0;
        while i < n
            invariant
                i <= n,
                n == items@.len() == mid.len(),
                forall|k: int| 0 <= k < items@.len() ==> (#[trigger] items@[k]).text@ == mid[k].text@,
                forall|k: int|
                    0 <= k < items@.len() ==> (#[trigger] items@[k]).pointers@ == mid[k].pointers@,
                forall|k: int|
                    0 <= k < i ==> (#[trigger] items@[k]).view@ == join_spaces_spec(
                        views_of(items@[k].pointers@),
                    ),
            decreases n - i,
        {
            let joined = join_spaces(&items[i].pointers);
            let entry = &mut items[i];
            entry.view = joined;
            i = i + 1;
        }
    }
}

} // verus!
