use prime_digestor::recipe::{
    recipe_add, recipe_combine, recipe_content_add, recipe_create, recipe_to_contents, recipe_to_list,
    recipe_to_string, RecipeContents,
};
use prime_digestor::DigestNode;

fn pairs(nodes: Vec<DigestNode>) -> Vec<(u64, u8)> {
    nodes.iter().map(|node| (node.prime_number, node.count)).collect()
}

#[test]
fn node_starts_at_one() {
    let node = DigestNode::new(7);
    assert_eq!(node.prime_number, 7);
    assert_eq!(node.count, 1);
}

#[test]
fn node_add_raises_the_count() {
    let mut node = DigestNode::new(7);
    node.add(3);
    assert_eq!(node, DigestNode { count: 4, prime_number: 7 });
    node.add(0);
    assert_eq!(node.count, 4);
    node.add(251);
    assert_eq!(node.count, 255);
}

#[test]
fn node_text() {
    assert_eq!(DigestNode::new(2).to_string(), "2^1");
    let node = DigestNode { count: 16, prime_number: 4_294_967_291 };
    assert_eq!(node.to_string(), "4294967291^16");
}

#[test]
fn create_with_two_factors() {
    assert_eq!(pairs(recipe_to_list(recipe_create(&3, &2))), vec![(2, 1), (3, 1)]);
}

#[test]
fn create_with_one_factor_twice() {
    assert_eq!(pairs(recipe_to_list(recipe_create(&5, &5))), vec![(5, 2)]);
}

#[test]
fn add_a_new_factor() {
    let six = recipe_create(&2, &3);
    let forty_two = recipe_add(&six, &7);
    assert_eq!(pairs(recipe_to_list(forty_two)), vec![(2, 1), (3, 1), (7, 1)]);
    assert_eq!(pairs(recipe_to_list(six)), vec![(2, 1), (3, 1)]);
}

#[test]
fn add_a_known_factor() {
    let six = recipe_create(&2, &3);
    assert_eq!(pairs(recipe_to_list(recipe_add(&six, &3))), vec![(2, 1), (3, 2)]);
}

#[test]
fn combine_adds_shared_factors() {
    let a = recipe_add(&recipe_create(&2, &2), &3);
    let b = recipe_add(&recipe_create(&3, &11), &2);
    let both = recipe_combine(&a, &b);
    assert_eq!(pairs(recipe_to_list(both)), vec![(2, 3), (3, 2), (11, 1)]);
    assert_eq!(pairs(recipe_to_list(a)), vec![(2, 2), (3, 1)]);
    assert_eq!(pairs(recipe_to_list(b)), vec![(2, 1), (3, 1), (11, 1)]);
}

#[test]
fn contents_copy_the_recipe() {
    let contents = recipe_to_contents(&recipe_create(&13, &7));
    assert_eq!(contents.len(), 2);
    assert_eq!(contents[&7], DigestNode { count: 1, prime_number: 7 });
    assert_eq!(contents[&13], DigestNode { count: 1, prime_number: 13 });
}

#[test]
fn content_add_inserts_and_raises() {
    let contents = RecipeContents::new();
    let contents = recipe_content_add(contents, DigestNode::new(5));
    assert_eq!(contents.len(), 1);
    assert_eq!(contents[&5].count, 1);
    let contents = recipe_content_add(contents, DigestNode { count: 3, prime_number: 5 });
    assert_eq!(contents.len(), 1);
    assert_eq!(contents[&5], DigestNode { count: 4, prime_number: 5 });
    let contents = recipe_content_add(contents, DigestNode::new(2));
    assert_eq!(contents.len(), 2);
    assert_eq!(contents[&2].count, 1);
    assert_eq!(contents[&5].count, 4);
}

#[test]
fn list_is_in_ascending_order() {
    let mut recipe = recipe_create(&101, &3);
    for factor in [97u64, 2, 89, 5, 83, 7, 79, 11, 3, 2] {
        recipe = recipe_add(&recipe, &factor);
    }
    assert_eq!(
        pairs(recipe_to_list(recipe)),
        vec![(2, 2), (3, 2), (5, 1), (7, 1), (11, 1), (79, 1), (83, 1), (89, 1), (97, 1), (101, 1)]
    );
}

#[test]
fn recipe_text_is_joined() {
    assert_eq!(recipe_to_string(recipe_create(&3, &2)), "2^1 * 3^1");
    assert_eq!(recipe_to_string(recipe_create(&2, &2)), "2^2");
    let recipe = recipe_add(&recipe_create(&13, &2), &2);
    assert_eq!(recipe_to_string(recipe), "2^2 * 13^1");
}
