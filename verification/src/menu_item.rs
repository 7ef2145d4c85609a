use vstd::prelude::*;

verus! {

/// An entry on the menu of an invoice.
#[derive(Debug)]
pub struct MenuItem {
    pub id: u32,
    pub desc: String,
}

/// What a [`MenuItem`] holds, as mathematical values.
#[verifier::ext_equal]
pub struct MenuItemModel {
    pub id: u32,
    pub desc: Seq<char>,
}

impl View for MenuItem {
    type V = MenuItemModel;

    open spec fn view(&self) -> MenuItemModel {
        MenuItemModel { id: self.id, desc: self.desc@ }
    }
}

impl Clone for MenuItem {
    fn clone(&self) -> (r: Self)
        ensures
            r@ == self@,
    {
        MenuItem { id: self.id, desc: self.desc.clone() }
    }
}

} // verus!
