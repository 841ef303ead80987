//! The bookkeeping of the world's shared state.
use vstd::prelude::*;
use crate::string_map::StringMap;

verus! {

/// Files a resource under a name: appended to the resources already filed
/// there, or as the first one.
pub fn add_resource<R>(resources: &mut StringMap<Vec<R>>, name: String, resource: R)
    ensures
        final(resources)@.dom() == old(resources)@.dom().insert(name@),
        final(resources)@.remove(name@) == old(resources)@.remove(name@),
        final(resources)@[name@]@ == (if old(resources)@.contains_key(name@) {
            old(resources)@[name@]@
        } else {
            Seq::<R>::empty()
        }).push(resource),
{
    let ghost before = resources@;
    match resources.remove(name.as_str()) {
        Some(mut filed) => {
            filed.push(resource);
            resources.insert(name, filed);
        },
        None => {
            let filed = vec![resource];
            resources.insert(name, filed);
        },
    }
    proof {
        assert(resources@.dom() =~= before.dom().insert(name@));
        assert(resources@.remove(name@) =~= before.remove(name@));
    }
}

} // verus!
