//! A layout configuration: window and popup bounds, and the linked item tree.
use vstd::prelude::*;
use crate::direction::Direction;
use crate::identifier::Identifier;
use crate::item::{Item, ItemTree, ItemView, TreeError, error_explained, links_cleanly};
use crate::length::Length;

verus! {

/// The extent of a popup window, against the screen.
#[derive(Clone, Copy, Debug, PartialEq, Eq, Structural)]
pub struct Popup {
    pub height: Length,
    pub width: Length,
}

/// A layout configuration: window and popup bounds, the flat item list, and
/// the tree linked from it.
#[derive(Clone, Debug)]
pub struct UI {
    pub window_height: Length,
    pub window_width: Length,
    pub popup_height: Length,
    pub popup_width: Length,
    pub items: Vec<Item>,
    pub item_root: ItemTree,
}

impl UI {
    /// The configuration is consistent: its tree is linked from its items.
    pub open spec fn wf(&self) -> bool {
        self.item_root.linked_from(self.items@)
    }

    /// Links `items` and makes the configuration, or says why they do not link.
    pub fn new(
        window_height: Length,
        window_width: Length,
        popup: Popup,
        items: Vec<Item>,
    ) -> (r: Result<UI, TreeError>)
        ensures
            r matches Ok(ui) ==> ui.wf() && ui.items@ == items@ && ui.window_height == window_height
                && ui.window_width == window_width && ui.popup_height == popup.height
                && ui.popup_width == popup.width,
            r matches Err(e) ==> error_explained(items@, e),
            r matches Err(TreeError::EmptyItemSet) <==> items@.len() == 0,
            links_cleanly(items@) ==> r is Ok,
    {
        match ItemTree::new(&items) {
            Ok(tree) => Ok(
                UI {
                    window_height,
                    window_width,
                    popup_height: popup.height,
                    popup_width: popup.width,
                    items,
                    item_root: tree,
                },
            ),
            Err(e) => Err(e),
        }
    }

    pub fn get_popup(&self) -> (r: Popup)
        ensures
            r.height == self.popup_height,
            r.width == self.popup_width,
    {
        Popup { height: self.popup_height, width: self.popup_width }
    }

    pub fn get_items(&self) -> (r: &Vec<Item>)
        ensures
            r == &self.items,
    {
        &self.items
    }

    pub fn get_item_tree(&self) -> (r: &ItemTree)
        ensures
            r == &self.item_root,
    {
        &self.item_root
    }

    /// Replaces the items and relinks the tree; on error nothing changes.
    pub fn set_items(&mut self, items: Vec<Item>) -> (r: Result<(), TreeError>)
        ensures
            r is Ok ==> final(self).items@ == items@ && final(self).item_root.linked_from(items@),
            r matches Err(e) ==> *final(self) == *old(self) && error_explained(items@, e),
            r matches Err(TreeError::EmptyItemSet) <==> items@.len() == 0,
            links_cleanly(items@) ==> r is Ok,
            final(self).window_height == old(self).window_height,
            final(self).window_width == old(self).window_width,
            final(self).popup_height == old(self).popup_height,
            final(self).popup_width == old(self).popup_width,
    {
        match ItemTree::new(&items) {
            Ok(tree) => {
                self.item_root = tree;
                self.items = items;
                Ok(())
            },
            Err(e) => Err(e),
        }
    }
}

/// Collects the parts of a configuration before linking them.
#[derive(Clone, Debug)]
pub struct UIBuilder {
    pub window_height: Length,
    pub window_width: Length,
    pub popup: Popup,
    pub items: Vec<Item>,
}

impl UIBuilder {
    /// Window and popup fill the screen; no items yet.
    pub fn new() -> (r: UIBuilder)
        ensures
            r.window_height == Length::Relative(100),
            r.window_width == Length::Relative(100),
            r.popup == (Popup { height: Length::Relative(100), width: Length::Relative(100) }),
            r.items@.len() == 0,
    {
        UIBuilder {
            window_height: Length::Relative(100),
            window_width: Length::Relative(100),
            popup: Popup { height: Length::Relative(100), width: Length::Relative(100) },
            items: Vec::new(),
        }
    }

    pub fn window(&mut self, height: Length, width: Length)
        ensures
            final(self).window_height == height,
            final(self).window_width == width,
            final(self).popup == old(self).popup,
            final(self).items@ == old(self).items@,
    {
        self.window_height = height;
        self.window_width = width;
    }

    pub fn popup(&mut self, popup: Popup)
        ensures
            final(self).popup == popup,
            final(self).window_height == old(self).window_height,
            final(self).window_width == old(self).window_width,
            final(self).items@ == old(self).items@,
    {
        self.popup = popup;
    }

    /// Appends `items` after the items collected so far.
    pub fn extend_items(&mut self, items: Vec<Item>)
        ensures
            final(self).items@ == old(self).items@ + items@,
            final(self).popup == old(self).popup,
            final(self).window_height == old(self).window_height,
            final(self).window_width == old(self).window_width,
    {
        let mut items = items;
        self.items.append(&mut items);
    }

    pub fn set_items(&mut self, items: Vec<Item>)
        ensures
            final(self).items@ == items@,
            final(self).popup == old(self).popup,
            final(self).window_height == old(self).window_height,
            final(self).window_width == old(self).window_width,
    {
        self.items = items;
    }

    /// Links the collected items into a configuration.
    pub fn build(self) -> (r: Result<UI, TreeError>)
        ensures
            r matches Ok(ui) ==> ui.wf() && ui.items@ == self.items@,
            r matches Err(e) ==> error_explained(self.items@, e),
            r matches Err(TreeError::EmptyItemSet) <==> self.items@.len() == 0,
            links_cleanly(self.items@) ==> r is Ok,
    {
        UI::new(self.window_height, self.window_width, self.popup, self.items)
    }
}

fn container(name: &str) -> (r: Identifier)
    ensures
        r@ == (true, name@),
{
    Identifier::Container(String::from_str(name))
}

fn gadget(name: &str) -> (r: Identifier)
    ensures
        r@ == (false, name@),
{
    Identifier::Gadget(String::from_str(name))
}

/// A gadget item with no children.
pub open spec fn leaf_view(name: Seq<char>, size: Length) -> ItemView {
    ItemView { identifier: (false, name), size, childs: Seq::empty(), split: Direction::Vertical }
}

/// The items of the default layout: the root and its three areas, the five
/// gadgets, and the containers that place them.
pub open spec fn default_items() -> Seq<ItemView> {
    seq![
        ItemView {
            identifier: (true, "IAmRoot"@),
            size: Length::Relative(100),
            childs: seq![(true, "TopArea"@), (true, "MidArea"@), (true, "BotttomArea"@)],
            split: Direction::Vertical,
        },
        leaf_view("searchbar"@, Length::Fill),
        leaf_view("shortcuts"@, Length::Relative(30)),
        leaf_view("panetab"@, Length::Absolute(3)),
        leaf_view("result_pane"@, Length::Fill),
        leaf_view("gauge"@, Length::Absolute(3)),
        ItemView {
            identifier: (true, "TopArea"@),
            size: Length::Absolute(3),
            childs: seq![(false, "searchbar"@)],
            split: Direction::Horizontal,
        },
        ItemView {
            identifier: (true, "MidArea"@),
            size: Length::Relative(70),
            childs: seq![(false, "shortcuts"@), (true, "Central"@)],
            split: Direction::Horizontal,
        },
        ItemView {
            identifier: (true, "Central"@),
            size: Length::Fill,
            childs: seq![(false, "panetab"@), (false, "result_pane"@)],
            split: Direction::Vertical,
        },
        ItemView {
            identifier: (true, "BotttomArea"@),
            size: Length::AtLeast(3),
            childs: seq![(false, "gauge"@)],
            split: Direction::Vertical,
        },
    ]
}

fn leaf(name: &str, size: Length) -> (r: Item)
    ensures
        r@ == leaf_view(name@, size),
{
    let r = Item { identifier: gadget(name), size, childs: Vec::new(), split: Direction::Vertical };
    assert(r@.childs =~= Seq::<crate::identifier::IdView>::empty());
    r
}

/// The default layout: a search bar on top, the shortcut list beside the
/// pane tabs and results in the middle, and the gauge at the bottom; a window
/// of at least 80 by 24 cells and a popup of 80% either way.
pub fn default_config() -> (r: UIBuilder)
    ensures
        r.window_height == Length::AtLeast(24),
        r.window_width == Length::AtLeast(80),
        r.popup == (Popup { height: Length::Relative(80), width: Length::Relative(80) }),
        r.items@.map_values(|i: Item| i@) == default_items(),
{
    let mut items: Vec<Item> = Vec::new();
    let root = Item {
        identifier: container("IAmRoot"),
        size: Length::Relative(100),
        childs: vec![container("TopArea"), container("MidArea"), container("BotttomArea")],
        split: Direction::Vertical,
    };
    assert(root@.childs =~= seq![(true, "TopArea"@), (true, "MidArea"@), (true, "BotttomArea"@)]);
    items.push(root);
    items.push(leaf("searchbar", Length::Fill));
    items.push(leaf("shortcuts", Length::Relative(30)));
    items.push(leaf("panetab", Length::Absolute(3)));
    items.push(leaf("result_pane", Length::Fill));
    items.push(leaf("gauge", Length::Absolute(3)));
    let top = Item {
        identifier: container("TopArea"),
        childs: vec![gadget("searchbar")],
        split: Direction::Horizontal,
        size: Length::Absolute(3),
    };
    assert(top@.childs =~= seq![(false, "searchbar"@)]);
    items.push(top);
    let mid = Item {
        identifier: container("MidArea"),
        childs: vec![gadget("shortcuts"), container("Central")],
        size: Length::Relative(70),
        split: Direction::Horizontal,
    };
    assert(mid@.childs =~= seq![(false, "shortcuts"@), (true, "Central"@)]);
    items.push(mid);
    let central = Item {
        identifier: container("Central"),
        childs: vec![gadget("panetab"), gadget("result_pane")],
        size: Length::Fill,
        split: Direction::Vertical,
    };
    assert(central@.childs =~= seq![(false, "panetab"@), (false, "result_pane"@)]);
    items.push(central);
    let bottom = Item {
        identifier: container("BotttomArea"),
        childs: vec![gadget("gauge")],
        size: Length::AtLeast(3),
        split: Direction::Vertical,
    };
    assert(bottom@.childs =~= seq![(false, "gauge"@)]);
    items.push(bottom);
    assert(items@.map_values(|i: Item| i@) =~= default_items());
    UIBuilder {
        window_height: Length::AtLeast(24),
        window_width: Length::AtLeast(80),
        popup: Popup { height: Length::Relative(80), width: Length::Relative(80) },
        items,
    }
}

} // verus!
