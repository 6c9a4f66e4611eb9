use layout::direction::Direction;
use layout::identifier::Identifier;
use layout::item::{Item, ItemTree, TreeError};
use layout::length::Length;
use layout::rect::Rect;
use layout::rect_computation::{compute, compute_rect_for_item_tree, i_can_start_from, RectMap};
use layout::ui::{default_config, Popup, UIBuilder, UI};
use layout::window::{PaneWindow, Window};
use Direction::{Horizontal, Vertical};

const TERMINAL_RECT: Rect = Rect { x: 0, y: 0, height: 33, width: 150 };

fn container(s: &str) -> Identifier {
    Identifier::Container(s.to_string())
}

fn gadget(s: &str) -> Identifier {
    Identifier::Gadget(s.to_string())
}

fn item(identifier: Identifier, size: Length, childs: Vec<Identifier>, split: Direction) -> Item {
    Item { identifier, size, childs, split }
}

fn layout_file_items() -> Vec<Item> {
    vec![
        item(
            container("Things_starts_from_me"),
            Length::Relative(100),
            vec![container("Red_element_custom"), container("Bottom_area")],
            Vertical,
        ),
        item(container("Red_element_custom"), Length::Absolute(5), vec![gadget("red_element")], Vertical),
        item(
            container("Bottom_area"),
            Length::AtLeast(10),
            vec![container("Bottom_left"), container("Bottom_right")],
            Horizontal,
        ),
        item(container("Bottom_left"), Length::Relative(50), vec![gadget("blue_element")], Vertical),
        item(
            container("Bottom_right"),
            Length::Relative(50),
            vec![container("Green_container"), container("Yellow_container"), container("Blue_container")],
            Vertical,
        ),
        item(container("Green_container"), Length::Relative(33), vec![gadget("green_element")], Horizontal),
        item(container("Yellow_container"), Length::Relative(33), vec![gadget("yellow_element")], Horizontal),
        item(container("Blue_container"), Length::Fill, vec![gadget("blue_element")], Horizontal),
        item(gadget("blue_element"), Length::Fill, vec![], Horizontal),
        item(gadget("yellow_element"), Length::Fill, vec![], Horizontal),
        item(gadget("green_element"), Length::Fill, vec![], Horizontal),
        item(gadget("red_element"), Length::Fill, vec![], Horizontal),
    ]
}

#[test]
fn duplicate_element() {
    let tree_as_vec = vec![
        item(
            container("Root"),
            Length::Fill,
            vec![container("Container"), gadget("element")],
            Vertical,
        ),
        item(container("Container"), Length::Fill, vec![gadget("element")], Vertical),
        item(gadget("element"), Length::Absolute(10), vec![], Vertical),
    ];

    let tree = ItemTree::new(&tree_as_vec).unwrap();
    let root = &tree.nodes[0];
    let container_node = &tree.nodes[root.childs[0]];
    let first_element = &tree.nodes[root.childs[1]];
    let second_element = &tree.nodes[container_node.childs[0]];

    assert_eq!(root.childs.len(), 2);
    assert_eq!(container_node.item.identifier, container("Container"));
    assert_eq!(first_element.item.identifier, gadget("Root->element"));
    assert_eq!(second_element.item.identifier, gadget("Container->element"));
    assert!(first_element.childs.is_empty());
    assert!(second_element.childs.is_empty());
}

#[test]
fn default_config_rect_computation() {
    let ui = default_config().build().unwrap();
    let tree = &ui.item_root;
    let terminal_rect = Rect { x: 0, y: 0, height: 43, width: 190 };
    let mut size_map = RectMap::new(tree);
    compute_rect_for_item_tree(tree, 0, &mut size_map, &terminal_rect);

    let root = terminal_rect;
    assert_eq!(Some(root), size_map.get(tree, &container("IAmRoot")));

    let top_area = Rect { height: 3, ..root };
    let mid_area = Rect { y: 3, height: 30, ..root };
    let bottom_area = Rect { y: 33, height: 10, ..root };
    assert_eq!(Some(top_area), size_map.get(tree, &container("TopArea")));
    assert_eq!(Some(mid_area), size_map.get(tree, &container("MidArea")));
    assert_eq!(Some(bottom_area), size_map.get(tree, &container("BotttomArea")));

    let shortcuts = Rect { x: 0, width: 57, ..mid_area };
    let central = Rect { x: 57, width: 133, ..mid_area };
    assert_eq!(Some(central), size_map.get(tree, &container("Central")));
    assert_eq!(Some(shortcuts), size_map.get(tree, &gadget("MidArea->shortcuts")));

    let searchbar = Rect { height: 3, ..top_area };
    let gauge = Rect { height: 3, ..bottom_area };
    assert_eq!(Some(gauge), size_map.get(tree, &gadget("BotttomArea->gauge")));
    assert_eq!(Some(searchbar), size_map.get(tree, &gadget("TopArea->searchbar")));
}

#[test]
fn test_rect_for_layout_file() {
    let tree = ItemTree::new(&layout_file_items()).unwrap();
    let mut size_map = RectMap::new(&tree);
    compute_rect_for_item_tree(&tree, 0, &mut size_map, &TERMINAL_RECT);
    let get = |name: &str| size_map.get(&tree, &container(name));

    let root = Rect { x: 0, y: 0, height: 33, width: 150 };
    assert_eq!(Some(root), get("Things_starts_from_me"));
    let red_el_custom = Rect { x: 0, y: 0, height: 5, width: 150 };
    assert_eq!(Some(red_el_custom), get("Red_element_custom"));
    let top_area = Rect { x: 0, y: 5, height: 28, width: 150 };
    assert_eq!(Some(top_area), get("Bottom_area"));
    let top_left = Rect { x: 0, y: 5, height: 28, width: 75 };
    assert_eq!(Some(top_left), get("Bottom_left"));
    let top_right = Rect { x: 75, y: 5, height: 28, width: 75 };
    assert_eq!(Some(top_right), get("Bottom_right"));
    let green_container = Rect { x: 75, y: 5, height: 9, width: 75 };
    assert_eq!(Some(green_container), get("Green_container"));
    let yellow_container = Rect { y: 14, ..green_container };
    assert_eq!(Some(yellow_container), get("Yellow_container"));
    let blue_container = Rect { y: 23, height: 10, ..yellow_container };
    assert_eq!(Some(blue_container), get("Blue_container"));

    // every container's children fit along its split axis
    for node in tree.nodes.iter() {
        let mine = size_map.get(&tree, &node.item.identifier).unwrap();
        let (mut h, mut w) = (0u32, 0u32);
        for &c in node.childs.iter() {
            if tree.nodes[c].item.identifier.is_container() {
                let r = size_map.rects[c].unwrap();
                h += r.height as u32;
                w += r.width as u32;
            }
        }
        match node.item.split {
            Vertical => assert!(mine.height as u32 >= h),
            Horizontal => assert!(mine.width as u32 >= w),
        }
    }
}

#[test]
fn duplicate_element_in_tree() {
    let tree = ItemTree::new(&vec![
        item(
            container("Root"),
            Length::Fill,
            vec![gadget("element"), container("Container")],
            Vertical,
        ),
        item(container("Container"), Length::Fill, vec![gadget("element")], Vertical),
        item(gadget("element"), Length::Absolute(10), vec![], Vertical),
    ])
    .unwrap();

    let mut size_map = RectMap::new(&tree);
    compute_rect_for_item_tree(&tree, 0, &mut size_map, &TERMINAL_RECT);

    let root_rect = TERMINAL_RECT;
    assert_eq!(Some(root_rect), size_map.get(&tree, &container("Root")));
    let first_element_rect = Rect { height: 10, ..root_rect };
    assert_eq!(Some(first_element_rect), size_map.get(&tree, &gadget("Root->element")));
    let container_rect = Rect { y: 10, height: root_rect.height - 10, ..root_rect };
    assert_eq!(Some(container_rect), size_map.get(&tree, &container("Container")));
    let second_element_rect = Rect { height: 10, ..container_rect };
    assert_eq!(Some(second_element_rect), size_map.get(&tree, &gadget("Container->element")));
}

#[test]
fn start_for_root() {
    let tree = ItemTree::new(&vec![
        item(
            container("root"),
            // the root's size is ignored: it always fills the terminal
            Length::Relative(50),
            vec![container("first_child"), container("second_child")],
            Vertical,
        ),
        item(container("first_child"), Length::Relative(50), vec![gadget("gadget2")], Vertical),
        item(container("second_child"), Length::Relative(50), vec![gadget("gadget2")], Vertical),
        item(gadget("gadget"), Length::Fill, vec![], Vertical),
        item(gadget("gadget2"), Length::Fill, vec![], Vertical),
    ])
    .unwrap();
    let mut size_map = RectMap::new(&tree);
    let second = tree.nodes[0].childs[1];
    assert_eq!((16, 150), i_can_start_from(&tree, second, &mut size_map, &TERMINAL_RECT));
}

fn scenario_items() -> Vec<Item> {
    vec![
        item(container("R"), Length::Absolute(1), vec![container("A"), container("B")], Vertical),
        item(container("A"), Length::Absolute(5), vec![], Vertical),
        item(
            container("B"),
            Length::Fill,
            vec![container("C1"), container("C2"), container("C3"), container("F")],
            Horizontal,
        ),
        item(container("C1"), Length::Relative(33), vec![], Vertical),
        item(container("C2"), Length::Relative(33), vec![], Vertical),
        item(container("C3"), Length::Relative(33), vec![], Vertical),
        item(container("F"), Length::Fill, vec![], Vertical),
    ]
}

#[test]
fn concrete_scenario() {
    let tree = ItemTree::new(&scenario_items()).unwrap();
    let map = compute(&tree, &Rect { x: 0, y: 0, width: 150, height: 33 });
    let get = |name: &str| map.get(&tree, &container(name)).unwrap();
    assert_eq!(get("A"), Rect { x: 0, y: 0, width: 150, height: 5 });
    assert_eq!(get("B"), Rect { x: 0, y: 5, width: 150, height: 28 });
    assert_eq!(get("C1"), Rect { x: 0, y: 5, width: 49, height: 28 });
    assert_eq!(get("C2"), Rect { x: 49, y: 5, width: 49, height: 28 });
    assert_eq!(get("C3"), Rect { x: 98, y: 5, width: 49, height: 28 });
    assert_eq!(get("F"), Rect { x: 147, y: 5, width: 3, height: 28 });
}

#[test]
fn root_is_anchored_to_the_terminal() {
    let tree = ItemTree::new(&scenario_items()).unwrap();
    let term = Rect { x: 7, y: 3, width: 40, height: 12 };
    let map = compute(&tree, &term);
    assert_eq!(map.get(&tree, &container("R")), Some(term));
    assert_eq!(map.get(&tree, &container("A")), Some(Rect { x: 7, y: 3, width: 40, height: 5 }));
    assert_eq!(map.get(&tree, &container("B")), Some(Rect { x: 7, y: 8, width: 40, height: 7 }));
}

#[test]
fn compute_twice_gives_the_same_map() {
    let tree = ItemTree::new(&layout_file_items()).unwrap();
    let first = compute(&tree, &TERMINAL_RECT);
    let second = compute(&tree, &TERMINAL_RECT);
    assert_eq!(first.rects, second.rects);
    let mut again = first.clone();
    compute_rect_for_item_tree(&tree, 0, &mut again, &TERMINAL_RECT);
    assert_eq!(first.rects, again.rects);
}

#[test]
fn vertical_siblings_are_chained() {
    let tree = ItemTree::new(&layout_file_items()).unwrap();
    let map = compute(&tree, &TERMINAL_RECT);
    let get = |name: &str| map.get(&tree, &container(name)).unwrap();
    let parent = get("Bottom_right");
    let (c1, c2, c3) = (get("Green_container"), get("Yellow_container"), get("Blue_container"));
    assert_eq!(c2.y, c1.y + c1.height);
    assert_eq!(c3.y, c2.y + c2.height);
    for c in [c1, c2, c3] {
        assert_eq!(c.x, parent.x);
        assert_eq!(c.width, parent.width);
    }
}

#[test]
fn overflowing_siblings_leave_nothing_to_fill() {
    let tree = ItemTree::new(&vec![
        item(container("Root"), Length::Fill, vec![container("Big"), container("Rest")], Vertical),
        item(container("Big"), Length::AtLeast(50), vec![], Vertical),
        item(container("Rest"), Length::Fill, vec![], Vertical),
    ])
    .unwrap();
    let map = compute(&tree, &TERMINAL_RECT);
    assert_eq!(map.get(&tree, &container("Big")), Some(Rect { height: 50, ..TERMINAL_RECT }));
    assert_eq!(map.get(&tree, &container("Rest")), Some(Rect { y: 50, height: 0, ..TERMINAL_RECT }));
}

#[test]
fn subtree_computation_fills_parents_but_not_cousins() {
    let tree = ItemTree::new(&layout_file_items()).unwrap();
    let mut size_map = RectMap::new(&tree);
    let bottom_right = tree.index_of(&container("Bottom_right")).unwrap();
    compute_rect_for_item_tree(&tree, bottom_right, &mut size_map, &TERMINAL_RECT);
    assert_eq!(
        size_map.get(&tree, &container("Blue_container")),
        Some(Rect { x: 75, y: 23, height: 10, width: 75 })
    );
    assert_eq!(size_map.get(&tree, &container("Bottom_left")), Some(Rect { x: 0, y: 5, height: 28, width: 75 }));
    assert_eq!(size_map.get(&tree, &gadget("Bottom_left->blue_element")), None);
}

#[test]
fn unknown_child_is_rejected() {
    let items = vec![
        item(container("Root"), Length::Fill, vec![container("Present"), container("Absent")], Vertical),
        item(container("Present"), Length::Fill, vec![], Vertical),
    ];
    match ItemTree::new(&items) {
        Err(TreeError::UnknownIdentifier(id)) => assert_eq!(id, container("Absent")),
        other => panic!("unexpected {other:?}"),
    }
}

#[test]
fn empty_item_set_is_rejected() {
    assert!(matches!(ItemTree::new(&vec![]), Err(TreeError::EmptyItemSet)));
}

#[test]
fn missing_gadget_is_rejected() {
    let items = vec![item(container("Root"), Length::Fill, vec![gadget("gauge")], Vertical)];
    match ItemTree::new(&items) {
        Err(TreeError::MissingGadgetDefinition(id)) => assert_eq!(id, gadget("gauge")),
        other => panic!("unexpected {other:?}"),
    }
}

#[test]
fn repeated_container_is_rejected() {
    let items = vec![
        item(container("Root"), Length::Fill, vec![container("Loop")], Vertical),
        item(container("Loop"), Length::Fill, vec![container("Loop")], Vertical),
    ];
    match ItemTree::new(&items) {
        Err(TreeError::DuplicateIdentifier(id)) => assert_eq!(id, container("Loop")),
        other => panic!("unexpected {other:?}"),
    }
}

#[test]
fn per_parent_gadget_override() {
    let items = vec![
        item(container("Root"), Length::Fill, vec![container("Top"), gadget("gauge")], Vertical),
        item(container("Top"), Length::Absolute(4), vec![gadget("gauge")], Horizontal),
        item(gadget("gauge"), Length::Absolute(3), vec![], Vertical),
        item(gadget("Top->gauge"), Length::Relative(50), vec![], Vertical),
    ];
    let tree = ItemTree::new(&items).unwrap();
    let top = &tree.nodes[tree.index_of(&container("Top")).unwrap()];
    let own = &tree.nodes[top.childs[0]];
    assert_eq!(own.item.identifier, gadget("Top->gauge"));
    assert_eq!(own.item.size, Length::Relative(50));
    let generic = &tree.nodes[tree.index_of(&gadget("Root->gauge")).unwrap()];
    assert_eq!(generic.item.size, Length::Absolute(3));
}

#[test]
fn flattening_round_trip() {
    let items = layout_file_items();
    let tree = ItemTree::new(&items).unwrap();
    let flat = tree.to_items();
    let names: Vec<String> = flat.iter().map(|i| i.identifier.as_str().to_string()).collect();
    assert_eq!(
        names,
        vec![
            "Things_starts_from_me",
            "Red_element_custom",
            "Bottom_area",
            "Bottom_left",
            "Bottom_right",
            "Green_container",
            "Yellow_container",
            "Blue_container",
        ]
    );
    // gadget definitions are not re-emitted: linking the flat form again needs them
    let mut relinked = flat.clone();
    relinked.extend(items.into_iter().filter(|i| i.identifier.is_gadget()));
    let again = ItemTree::new(&relinked).unwrap().to_items();
    let names_again: Vec<String> = again.iter().map(|i| i.identifier.as_str().to_string()).collect();
    assert_eq!(names, names_again);
}

#[test]
fn ui_relinks_items() {
    let mut builder = UIBuilder::new();
    builder.window(Length::AtLeast(300), Length::AtLeast(500));
    builder.popup(Popup { height: Length::Relative(80), width: Length::Relative(80) });
    builder.set_items(vec![]);
    builder.extend_items(layout_file_items());
    let mut ui: UI = builder.build().unwrap();
    assert_eq!(ui.window_height, Length::AtLeast(300));
    assert_eq!(ui.get_popup(), Popup { height: Length::Relative(80), width: Length::Relative(80) });
    assert_eq!(ui.get_items().len(), 12);
    assert!(matches!(ui.set_items(vec![]), Err(TreeError::EmptyItemSet)));
    assert_eq!(ui.get_items().len(), 12);
    assert!(ui.set_items(scenario_items()).is_ok());
    assert_eq!(ui.get_item_tree().nodes.len(), 7);
}

#[test]
fn window_focus_order() {
    assert_eq!(Window::first(), Window::SearchBar);
    assert_eq!(Window::last(), Window::Gauge);
    assert_eq!(Window::SearchBar.next(), Some(Window::Shortcut));
    assert_eq!(Window::PaneWindow.next(), Some(Window::Gauge));
    assert_eq!(Window::Gauge.next(), None);
    assert_eq!(Window::Popup.next(), Some(Window::SearchBar));
    assert_eq!(Window::Popup.prev(), Some(Window::Gauge));
    assert_eq!(Window::SearchBar.prev(), None);
    assert_eq!(Window::NoWindow.prev(), None);
    assert_eq!(PaneWindow::first().into_index(), 0);
    assert_eq!(PaneWindow::last().into_index(), 2);
    assert_eq!(PaneWindow::MusicPane.next(), Some(PaneWindow::PlaylistPane));
    assert_eq!(PaneWindow::ArtistPane.next(), None);
    assert_eq!(PaneWindow::MusicPane.prev(), None);
    assert_eq!(PaneWindow::ArtistPane.prev(), Some(PaneWindow::PlaylistPane));
    assert_eq!(PaneWindow::try_from_index(3), None);
}

#[test]
fn unreachable_items_play_no_part() {
    let items = vec![
        item(container("Root"), Length::Fill, vec![container("Used")], Vertical),
        item(container("Used"), Length::Fill, vec![], Vertical),
        item(container("Spare"), Length::Fill, vec![container("Nowhere"), gadget("ghost")], Vertical),
        item(gadget("plain"), Length::Fill, vec![container("Undefined")], Vertical),
    ];
    let tree = ItemTree::new(&items).unwrap();
    assert_eq!(tree.nodes.len(), 2);
}

#[test]
fn gadget_placed_twice_under_one_parent_is_rejected() {
    let items = vec![
        item(container("Root"), Length::Fill, vec![gadget("gauge"), gadget("gauge")], Vertical),
        item(gadget("gauge"), Length::Absolute(3), vec![], Vertical),
    ];
    match ItemTree::new(&items) {
        Err(TreeError::DuplicateIdentifier(id)) => assert_eq!(id, gadget("Root->gauge")),
        other => panic!("unexpected {other:?}"),
    }
}

#[test]
fn root_with_one_missing_child_names_it() {
    let items = vec![item(container("Root"), Length::Fill, vec![container("Missing")], Vertical)];
    match ItemTree::new(&items) {
        Err(TreeError::UnknownIdentifier(id)) => assert_eq!(id, container("Missing")),
        other => panic!("unexpected {other:?}"),
    }
}

#[test]
fn nodes_are_laid_out_depth_first() {
    let tree = ItemTree::new(&layout_file_items()).unwrap();
    for j in 1..tree.nodes.len() {
        let parent = tree.nodes[j].parent.unwrap();
        // the node before j lies in the subtree of j's parent
        let mut k = j - 1;
        while k != parent {
            k = tree.nodes[k].parent.unwrap();
            assert!(k >= parent);
        }
    }
}
