//! Uniform selection over the catalog: a draw across all items, and a
//! draw within one named category.

use vstd::prelude::*;
use crate::catalog::{Catalog, Item, spec_resolved};
use crate::rng::random_below;
use crate::DrawError;

verus! {

impl Catalog {
    /// Draws one item uniformly across the whole catalog: an ordinal
    /// is drawn from `[0, total)` and resolved, so each item is as
    /// likely as any other regardless of how categories are sized.
    /// Fails with `EmptyCatalog` exactly when the catalog holds no
    /// items at all.
    pub fn select_global(&self) -> (r: Result<(&Item, &String, usize), DrawError>)
        requires
            self.wf(),
        ensures
            r is Ok <==> self.total > 0,
            r matches Ok((item, category, local)) ==> exists|i: int|
                0 <= i < self.total && #[trigger] spec_resolved(
                    self.entries@,
                    i,
                    *item,
                    category@,
                    local as int,
                ),
            r matches Err(e) ==> e == DrawError::EmptyCatalog,
    {
        if self.total == 0 {
            return Err(DrawError::EmptyCatalog);
        }
        let ordinal = random_below(self.total);
        match self.resolve_global_ordinal(ordinal) {
            Ok(found) => Ok(found),
            Err(e) => {
                proof {
                    assert(false);
                }
                Err(e)
            },
        }
    }

    /// Draws one item uniformly from the named category, returning it
    /// with its local index. Fails with `UnknownCategory` exactly when
    /// no category carries the name, and with `EmptyCategory` exactly
    /// when the category exists but holds no items.
    pub fn select_within(&self, category: &String) -> (r: Result<(&Item, usize), DrawError>)
        requires
            self.wf(),
        ensures
            r is Ok <==> exists|c: int|
                0 <= c < self.entries@.len() && (#[trigger] self.entries@[c]).name@ == category@
                    && self.entries@[c].items@.len() > 0,
            r matches Ok((item, local)) ==> exists|c: int|
                0 <= c < self.entries@.len() && (#[trigger] self.entries@[c]).name@ == category@
                    && local < self.entries@[c].items@.len() && *item
                    == self.entries@[c].items@[local as int],
            r matches Err(e) ==> match e {
                DrawError::UnknownCategory { name } => !self.spec_has_category(category@) && name@
                    == category@,
                DrawError::EmptyCategory { name } => name@ == category@ && exists|c: int|
                    0 <= c < self.entries@.len() && (#[trigger] self.entries@[c]).name@ == category@
                        && self.entries@[c].items@.len() == 0,
                _ => false,
            },
    {
        let items = match self.lookup_category(category) {
            Ok(items) => items,
            Err(e) => {
                return Err(e);
            },
        };
        if items.len() == 0 {
            return Err(DrawError::EmptyCategory { name: category.clone() });
        }
        let local = random_below(items.len());
        Ok((&items[local], local))
    }
}

} // verus!
