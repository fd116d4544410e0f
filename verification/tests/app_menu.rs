use argand::app_menu::{file_items, Effect, Item, Kind, Menu};

fn menu() -> Menu<u8> {
    Menu::new(vec![
        Item::branch(
            "File",
            vec![
                Item::command("Open", 1),
                Item::branch("Recent", vec![Item::command("Capture", 2)]),
            ],
        ),
        Item::branch(
            "View",
            vec![
                Item::command("Grid", 3),
                Item::separator(),
                Item::branch("Empty", vec![]),
                Item::command("Orientation", 4),
            ],
        ),
    ])
}

#[test]
fn escape_closes_one_level_and_preserves_parent_selection() {
    let mut menu = menu();
    menu.hover(0, 0);
    menu.hover(1, 1);
    assert_eq!(menu.depth(), 3);
    assert_eq!(menu.back(), Effect::Nothing);
    assert_eq!(menu.depth(), 2);
    assert_eq!(menu.selected(1), Some(1));
    assert_eq!(menu.back(), Effect::Nothing);
    assert_eq!(menu.back(), Effect::Dismiss);
}

#[test]
fn hover_switches_siblings_and_discards_old_descendants() {
    let mut menu = menu();
    menu.hover(0, 0);
    menu.hover(1, 1);
    menu.hover(0, 1);
    assert_eq!(menu.depth(), 2);
    menu.step(true);
    assert_eq!(menu.enter(true), Effect::Activate(3));
}

#[test]
fn keyboard_skips_unavailable_rows_wraps_and_opens_branches() {
    let mut menu = menu();
    menu.edge(true);
    assert_eq!(menu.enter(false), Effect::Nothing);
    assert_eq!(menu.selected(1), Some(0));
    menu.step(false);
    assert_eq!(menu.selected(1), Some(3));
    menu.step(true);
    assert_eq!(menu.selected(1), Some(0));
    assert_eq!(menu.enter(false), Effect::Nothing);
    assert_eq!(menu.enter(true), Effect::Activate(3));
}

#[test]
fn disabled_hover_cannot_activate_previous_command() {
    let mut menu = menu();
    menu.hover(0, 1);
    menu.hover(1, 0);
    menu.hover(1, 2);
    assert_eq!(menu.enter(true), Effect::Nothing);
}

#[test]
fn recent_rows_are_inline_and_their_separators_collapse_when_empty() {
    let items = file_items(
        Item::command("Open file...", 1),
        vec![Item::command("Capture", 2), Item::command("Capture", 5)],
        Item::command("Settings", 3),
    );
    let kinds: Vec<&str> = items
        .iter()
        .map(|item| match item.kind {
            Kind::Command(_) => "command",
            Kind::Branch(_) => "branch",
            Kind::Separator => "separator",
        })
        .collect();
    assert_eq!(
        kinds,
        vec![
            "command",
            "separator",
            "command",
            "command",
            "separator",
            "command"
        ]
    );
    let empty = file_items(
        Item::command("Open file...", 1),
        Vec::new(),
        Item::command("Settings", 3),
    );
    assert_eq!(empty.len(), 3);
    assert!(matches!(empty[1].kind, Kind::Separator));
}

#[test]
fn numbered_recent_rows_activate_by_their_digit() {
    let mut menu = Menu::new(vec![Item::branch(
        "File",
        file_items(
            Item::command("Open file...", 1),
            vec![
                Item::command("a", 2).numbered(1),
                Item::command("b", 3).numbered(2),
            ],
            Item::command("Settings", 4),
        ),
    )]);
    menu.hover(0, 0);
    assert_eq!(menu.depth(), 2);
    assert_eq!(menu.activate_numbered(2, true), Effect::Activate(3));
    assert_eq!(menu.selected(1), Some(3));
}

#[test]
fn missing_disabled_and_root_level_digits_do_nothing() {
    let mut disabled = Item::command("b", 3).numbered(2);
    disabled.enabled = false;
    let mut menu = Menu::new(vec![Item::branch(
        "File",
        file_items(
            Item::command("Open file...", 1),
            vec![Item::command("a", 2).numbered(1), disabled],
            Item::command("Settings", 4),
        ),
    )]);
    // Digits mean nothing before the branch is open.
    assert_eq!(menu.activate_numbered(1, true), Effect::Nothing);
    menu.hover(0, 0);
    // An unknown digit and a disabled row both stay inert.
    assert_eq!(menu.activate_numbered(9, true), Effect::Nothing);
    assert_eq!(menu.activate_numbered(2, true), Effect::Nothing);
    assert_eq!(menu.selected(1), None);
}

#[test]
fn digits_never_touch_separators_branches_or_the_selection() {
    let numbered_branch = Item::branch("Sub", vec![Item::command("leaf", 5)]).numbered(1);
    let numbered_separator = Item::separator().numbered(2);
    let mut numbered_disabled = Item::command("b", 3).numbered(3);
    numbered_disabled.enabled = false;
    let mut menu = Menu::new(vec![Item::branch(
        "File",
        vec![
            Item::command("Open file...", 4),
            numbered_branch,
            numbered_separator,
            numbered_disabled,
        ],
    )]);
    menu.hover(0, 0);
    menu.select(1, 0);
    // A digit on a branch, a separator or a disabled row changes
    // nothing: no expansion, no selection reset.
    for digit in [1, 2, 3] {
        assert_eq!(menu.activate_numbered(digit, true), Effect::Nothing);
        assert_eq!(menu.depth(), 2);
        assert_eq!(menu.selected(1), Some(0));
    }
}

#[test]
fn checked_rows_keep_everything_else() {
    let item = Item::command("Grid", 7u8).checked(true);
    assert!(item.checked);
    assert!(item.enabled);
    assert_eq!(item.label, "Grid");
    assert!(item.number.is_none());
    let plain = Item::<u8>::branch("Empty", vec![]);
    assert!(!plain.enabled);
}

#[test]
fn a_path_through_the_menu_is_always_a_chain_of_open_branches() {
    let mut menu = menu();
    menu.hover(0, 0);
    menu.hover(1, 1);
    assert_eq!(menu.depth(), 3);
    assert_eq!(menu.selected(2), None);
    menu.step(true);
    assert_eq!(menu.selected(2), Some(0));
    assert_eq!(menu.items(2).len(), 1);
    assert_eq!(menu.items(2)[0].label, "Capture");
    menu.hover(0, 1);
    assert_eq!(menu.depth(), 2);
    assert_eq!(menu.items(1).len(), 4);
    assert_eq!(menu.items(5).len(), 0);
    assert_eq!(menu.enter(true), Effect::Nothing);
    assert_eq!(menu.selected(1), None);
}

#[test]
fn stepping_visits_enabled_rows_in_order_and_back_again() {
    let mut menu = Menu::new(vec![
        Item::command("A", 1),
        Item::separator(),
        Item::command("B", 2),
        Item::command("C", 3),
    ]);
    menu.step(true);
    assert_eq!(menu.selected(0), Some(0));
    menu.step(true);
    assert_eq!(menu.selected(0), Some(2));
    menu.step(true);
    assert_eq!(menu.selected(0), Some(3));
    menu.step(true);
    assert_eq!(menu.selected(0), Some(0));
    for start in [0, 2, 3] {
        menu.hover(0, start);
        menu.step(true);
        menu.step(false);
        assert_eq!(menu.selected(0), Some(start));
        menu.step(false);
        menu.step(true);
        assert_eq!(menu.selected(0), Some(start));
        assert_eq!(menu.depth(), 1);
    }
    let mut none = Menu::new(vec![Item::<u8>::separator()]);
    none.step(true);
    assert_eq!(none.selected(0), None);
}
