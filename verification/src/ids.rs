//! Lists of XT instance IDs.

use vstd::prelude::*;
use vstd::string::*;

verus! {

/// The texts of a list of IDs.
pub open spec fn id_views(ids: Seq<String>) -> Seq<Seq<char>> {
    ids.map_values(|id: String| id@)
}

/// A copy of a list of IDs.
pub fn copy_ids(ids: &Vec<String>) -> (res: Vec<String>)
    ensures
        id_views(res@) == id_views(ids@),
{
    let mut res: Vec<String> = Vec::new();
    let mut i: usize = 0;
    while i < ids.len()
        invariant
            i <= ids@.len(),
            res@.len() == i,
            forall|k: int| 0 <= k < i ==> (#[trigger] res@[k])@ == ids@[k]@,
        decreases ids@.len() - i,
    {
        res.push(ids[i].clone());
        i += 1;
    }
    assert(id_views(res@) =~= id_views(ids@));
    res
}

/// Whether `ids` holds `id`.
pub fn contains_id(ids: &Vec<String>, id: &String) -> (res: bool)
    ensures
        res == id_views(ids@).contains(id@),
{
    let mut i: usize = 0;
    while i < ids.len()
        invariant
            i <= ids@.len(),
            forall|k: int| 0 <= k < i ==> (#[trigger] ids@[k])@ != id@,
        decreases ids@.len() - i,
    {
        if ids[i] == *id {
            assert(id_views(ids@)[i as int] == id@);
            return true;
        }
        i += 1;
    }
    assert(!id_views(ids@).contains(id@)) by {
        if id_views(ids@).contains(id@) {
            let k = choose|k: int| 0 <= k < ids@.len() && id_views(ids@)[k] == id@;
            assert(ids@[k]@ == id@);
        }
    }
    false
}

/// Adds `id` to `ids` if it is not there yet.
pub fn insert_id(ids: &mut Vec<String>, id: &String)
    requires
        id_views(old(ids)@).no_duplicates(),
    ensures
        id_views(final(ids)@).no_duplicates(),
        id_views(final(ids)@).to_set() == id_views(old(ids)@).to_set().insert(id@),
{
    let ghost before = id_views(ids@);
    if !contains_id(ids, id) {
        ids.push(id.clone());
        let ghost after = id_views(ids@);
        assert(after =~= before.push(id@));
        assert forall|x: Seq<char>| #[trigger] after.to_set().contains(x) == before.to_set().insert(
            id@,
        ).contains(x) by {
            if before.contains(x) {
                let k = choose|k: int| 0 <= k < before.len() && before[k] == x;
                assert(after[k] == x);
            }
            if after.contains(x) && x != id@ {
                let k = choose|k: int| 0 <= k < after.len() && after[k] == x;
                assert(before[k] == x);
            }
            assert(after[before.len() as int] == id@);
        }
        assert(after.to_set() =~= before.to_set().insert(id@));
    } else {
        assert(before.to_set() =~= before.to_set().insert(id@));
    }
}

/// Takes `id` out of `ids` if it is there.
pub fn remove_id(ids: &mut Vec<String>, id: &String)
    requires
        id_views(old(ids)@).no_duplicates(),
    ensures
        id_views(final(ids)@).no_duplicates(),
        id_views(final(ids)@).to_set() == id_views(old(ids)@).to_set().remove(id@),
{
    let ghost before = id_views(ids@);
    let mut i: usize = 0;
    while i < ids.len()
        invariant
            i <= ids@.len(),
            before == id_views(ids@),
            before == id_views(old(ids)@),
            before.no_duplicates(),
            forall|k: int| 0 <= k < i ==> (#[trigger] ids@[k])@ != id@,
        decreases ids@.len() - i,
    {
        if ids[i] == *id {
            assert(before[i as int] == id@);
            ids.remove(i);
            let ghost after = id_views(ids@);
            assert(after =~= before.remove(i as int));
            assert forall|x: Seq<char>|
                #[trigger] after.to_set().contains(x) == before.to_set().remove(id@).contains(x) by {
                if before.contains(x) && x != id@ {
                    let k = choose|k: int| 0 <= k < before.len() && before[k] == x;
                    assert(after[if k < i { k } else { k - 1 }] == x);
                }
                if after.contains(x) {
                    let k = choose|k: int| 0 <= k < after.len() && after[k] == x;
                    assert(before[if k < i { k } else { k + 1 }] == x);
                }
            }
            assert(after.to_set() =~= before.to_set().remove(id@));
            return;
        }
        i += 1;
    }
    assert(before.to_set() =~= before.to_set().remove(id@)) by {
        if before.contains(id@) {
            let k = choose|k: int| 0 <= k < before.len() && before[k] == id@;
            assert(ids@[k]@ == id@);
        }
    }
}

/// The texts of IDs stand in the order of the IDs.
pub proof fn law_ids_are_viewed_in_order(ids: Seq<String>, i: int)
    ensures
        id_views(ids).len() == ids.len(),
        0 <= i < ids.len() ==> id_views(ids)[i] == ids[i]@,
{
}

} // verus!
