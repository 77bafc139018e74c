use tui_tree_widget::{flatten, Flattened, TreeItem};

fn get_example_tree_items() -> Vec<TreeItem<&'static str>> {
    vec![
        TreeItem::new_leaf("a"),
        TreeItem::new(
            "b",
            vec![
                TreeItem::new_leaf("c"),
                TreeItem::new("d", vec![TreeItem::new_leaf("e"), TreeItem::new_leaf("f")]),
                TreeItem::new_leaf("g"),
            ],
        ),
        TreeItem::new_leaf("h"),
    ]
}

fn texts(result: &[Flattened<'_, &'static str>]) -> Vec<&'static str> {
    result.iter().map(|o| o.item.content).collect()
}

fn depths(result: &[Flattened<'_, &'static str>]) -> Vec<usize> {
    result.iter().map(|o| o.depth()).collect()
}

fn identifiers(result: &[Flattened<'_, &'static str>]) -> Vec<Vec<usize>> {
    result.iter().map(|o| o.identifier.clone()).collect()
}

#[test]
fn get_opened_nothing_opened_is_top_level() {
    let items = get_example_tree_items();
    let result = flatten(&[], &items);
    let result_text = texts(&result);
    assert_eq!(result_text, ["a", "b", "h"]);
}

#[test]
fn get_opened_wrong_opened_is_only_top_level() {
    let items = get_example_tree_items();
    let opened = [vec![0], vec![1, 1]];
    let result = flatten(&opened, &items);
    let result_text = texts(&result);
    assert_eq!(result_text, ["a", "b", "h"]);
}

#[test]
fn get_opened_one_is_opened() {
    let items = get_example_tree_items();
    let opened = [vec![1]];
    let result = flatten(&opened, &items);
    let result_text = texts(&result);
    assert_eq!(result_text, ["a", "b", "c", "d", "g", "h"]);
}

#[test]
fn get_opened_all_opened() {
    let items = get_example_tree_items();
    let opened = [vec![1], vec![1, 1]];
    let result = flatten(&opened, &items);
    let result_text = texts(&result);
    assert_eq!(result_text, ["a", "b", "c", "d", "e", "f", "g", "h"]);
}

#[test]
fn nothing_opened_gives_depth_zero_and_single_index_paths() {
    let items = get_example_tree_items();
    let result = flatten(&[], &items);
    assert_eq!(depths(&result), [0, 0, 0]);
    assert_eq!(identifiers(&result), [vec![0], vec![1], vec![2]]);
}

#[test]
fn one_opened_gives_depths_and_paths() {
    let items = get_example_tree_items();
    let result = flatten(&[vec![1]], &items);
    assert_eq!(depths(&result), [0, 0, 1, 1, 1, 0]);
    assert_eq!(
        identifiers(&result),
        [vec![0], vec![1], vec![1, 0], vec![1, 1], vec![1, 2], vec![2]]
    );
}

#[test]
fn all_opened_gives_depth_two_for_grandchildren() {
    let items = get_example_tree_items();
    let result = flatten(&[vec![1], vec![1, 1]], &items);
    assert_eq!(depths(&result), [0, 0, 1, 1, 2, 2, 1, 0]);
    assert_eq!(result[4].identifier, vec![1, 1, 0]);
    assert_eq!(result[5].identifier, vec![1, 1, 1]);
    for record in &result {
        assert_eq!(record.depth(), record.identifier.len() - 1);
    }
}

#[test]
fn records_refer_to_the_nodes_of_the_tree() {
    let items = get_example_tree_items();
    let result = flatten(&[vec![1], vec![1, 1]], &items);
    assert!(std::ptr::eq(result[1].item, &items[1]));
    assert!(std::ptr::eq(result[3].item, &items[1].children[1]));
    assert!(std::ptr::eq(result[5].item, &items[1].children[1].children[1]));
}

#[test]
fn empty_tree_gives_empty_listing() {
    let items: Vec<TreeItem<&'static str>> = Vec::new();
    assert!(flatten(&[vec![0], vec![1]], &items).is_empty());
    assert!(flatten(&[], &items).is_empty());
}

#[test]
fn open_child_under_closed_parent_is_inert() {
    let items = get_example_tree_items();
    let result = flatten(&[vec![1, 1]], &items);
    assert_eq!(texts(&result), ["a", "b", "h"]);
}

#[test]
fn opened_leaf_shows_nothing_more() {
    let items = get_example_tree_items();
    let with_leaf = flatten(&[vec![1], vec![1, 0], vec![2]], &items);
    let without = flatten(&[vec![1]], &items);
    assert_eq!(texts(&with_leaf), texts(&without));
    assert_eq!(identifiers(&with_leaf), identifiers(&without));
}

#[test]
fn unknown_and_repeated_entries_change_nothing() {
    let items = get_example_tree_items();
    let plain = flatten(&[vec![1]], &items);
    let noisy = flatten(&[vec![7], vec![1], vec![1, 9, 9], vec![1], vec![], vec![3, 0]], &items);
    assert_eq!(texts(&plain), texts(&noisy));
    assert_eq!(identifiers(&plain), identifiers(&noisy));
}

#[test]
fn order_of_opened_entries_changes_nothing() {
    let items = get_example_tree_items();
    let one = flatten(&[vec![1], vec![1, 1]], &items);
    let other = flatten(&[vec![1, 1], vec![1]], &items);
    assert_eq!(identifiers(&one), identifiers(&other));
}

#[test]
fn flatten_twice_gives_identical_listings() {
    let items = get_example_tree_items();
    let opened = [vec![1], vec![1, 1]];
    let first = flatten(&opened, &items);
    let second = flatten(&opened, &items);
    assert_eq!(identifiers(&first), identifiers(&second));
    assert_eq!(first.len(), second.len());
    for (a, b) in first.iter().zip(second.iter()) {
        assert!(std::ptr::eq(a.item, b.item));
    }
}

#[test]
fn listing_is_in_lexicographic_path_order() {
    let items = get_example_tree_items();
    let result = flatten(&[vec![1], vec![1, 1]], &items);
    let paths = identifiers(&result);
    for k in 1..paths.len() {
        assert!(paths[k - 1] < paths[k]);
    }
}

#[test]
fn deep_chain_opened_level_by_level() {
    let items = vec![TreeItem::new(
        "r",
        vec![TreeItem::new("s", vec![TreeItem::new("t", vec![TreeItem::new_leaf("u")])])],
    )];
    let partial = flatten(&[vec![0], vec![0, 0]], &items);
    assert_eq!(texts(&partial), ["r", "s", "t"]);
    let full = flatten(&[vec![0], vec![0, 0], vec![0, 0, 0]], &items);
    assert_eq!(texts(&full), ["r", "s", "t", "u"]);
    assert_eq!(depths(&full), [0, 1, 2, 3]);
    assert_eq!(full[3].identifier, vec![0, 0, 0, 0]);
}

#[test]
fn constructors_keep_content_and_children() {
    let leaf = TreeItem::new_leaf(5u8);
    assert_eq!(leaf.content, 5);
    assert!(leaf.children.is_empty());
    let node = TreeItem::new(1u8, vec![TreeItem::new_leaf(2u8), TreeItem::new_leaf(3u8)]);
    assert_eq!(node.content, 1);
    assert_eq!(node.children.len(), 2);
    assert_eq!(node.children[1].content, 3);
}
