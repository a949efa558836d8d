use dre::categories::{estimate_node_type, is_type3, type3_category, type3_region_key};

#[test]
fn type3_family() {
    assert!(is_type3("type3"));
    assert!(is_type3("type3.1"));
    assert!(!is_type3("type1"));
    assert!(!is_type3("typ"));
    assert!(!is_type3("xtype3"));
}

#[test]
fn type3_keys() {
    assert_eq!(type3_region_key("Europe,Switzerland,Zurich"), "Europe:Switzerland");
    assert_eq!(type3_region_key("Europe,Switzerland"), "Europe:Switzerland");
    assert_eq!(type3_region_key("Europe"), "Europe");
    assert_eq!(type3_region_key("A,B,C,D"), "A:B");
    let c = type3_category("A,B,C");
    assert_eq!(c.region, "A:B");
    assert_eq!(c.node_type, "type3*");
}

#[test]
fn node_types_are_used_up_in_order() {
    let mut counts = vec![("type0".to_string(), 0u32), ("type1".to_string(), 2), ("type3".to_string(), 1)];
    assert_eq!(estimate_node_type(Some(&mut counts)), "type1");
    assert_eq!(counts, vec![("type1".to_string(), 1), ("type3".to_string(), 1)]);
    assert_eq!(estimate_node_type(Some(&mut counts)), "type1");
    assert_eq!(estimate_node_type(Some(&mut counts)), "type3");
    assert!(counts.is_empty());
    assert_eq!(estimate_node_type(Some(&mut counts)), "unknown:no_rewardable_nodes_found");
    let mut zeros = vec![("type0".to_string(), 0u32)];
    assert_eq!(estimate_node_type(Some(&mut zeros)), "unknown:rewardable_nodes_used_up");
    assert!(zeros.is_empty());
    assert_eq!(estimate_node_type(None), "unknown");
}

#[test]
fn estimate_takes_the_least_type_with_a_count_left() {
    let mut counts = vec![("type0".to_string(), 0), ("type1".to_string(), 1), ("type2".to_string(), 3), ("type3".to_string(), 1)];
    assert_eq!(estimate_node_type(Some(&mut counts)), "type1");
    assert_eq!(estimate_node_type(Some(&mut counts)), "type2");
    let types: Vec<&str> = counts.iter().map(|(t, _)| t.as_str()).collect();
    assert_eq!(types, vec!["type2", "type3"]);
}
