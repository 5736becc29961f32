use dui::cli::TreeNode;
use dui::crawl::{get_size, DataType, PathSizeRecorder};

fn comps(parts: &[&str]) -> Vec<String> {
    parts.iter().map(|p| p.to_string()).collect()
}

fn labels(nodes: &[TreeNode]) -> Vec<String> {
    nodes.iter().map(|n| n.path.clone()).collect()
}

#[test]
fn entry_size_by_metric() {
    assert_eq!(get_size(DataType::FileSize, Some(300)), 300);
    assert_eq!(get_size(DataType::FileSize, None), 0);
    assert_eq!(get_size(DataType::NumFiles, Some(300)), 1);
    assert_eq!(get_size(DataType::NumFiles, None), 1);
}

#[test]
fn merge_adds_along_the_whole_path() {
    let mut rec = PathSizeRecorder::new("R".to_string(), DataType::FileSize);
    rec.merge_entry(&comps(&[]), 10);
    rec.merge_entry(&comps(&["a"]), 5);
    rec.merge_entry(&comps(&["a", "x"]), 7);
    rec.merge_entry(&comps(&["b"]), 3);
    assert_eq!(rec.data.size, 25);
    assert_eq!(rec.data.children.len(), 2);
    assert_eq!(rec.data.children[0].0, "a");
    assert_eq!(rec.data.children[0].1.size, 12);
    assert_eq!(rec.data.children[0].1.children[0].0, "x");
    assert_eq!(rec.data.children[0].1.children[0].1.size, 7);
    assert_eq!(rec.data.children[1].0, "b");
    assert_eq!(rec.data.children[1].1.size, 3);
}

#[test]
fn merge_order_does_not_change_sizes() {
    let mut one = PathSizeRecorder::new("R".to_string(), DataType::NumFiles);
    let mut two = PathSizeRecorder::new("R".to_string(), DataType::NumFiles);
    let entries = [comps(&["a"]), comps(&["a", "x"]), comps(&["b"]), comps(&["a", "y"])];
    for e in entries.iter() {
        one.merge_entry(e, get_size(DataType::NumFiles, None));
    }
    for e in entries.iter().rev() {
        two.merge_entry(e, get_size(DataType::NumFiles, None));
    }
    let t1 = TreeNode::from_recorder(one);
    let t2 = TreeNode::from_recorder(two);
    assert_eq!(t1.size, 4);
    assert_eq!(t2.size, 4);
    assert_eq!(labels(&t1.children), vec!["a", "b"]);
    assert_eq!(labels(&t2.children), vec!["a", "b"]);
    assert_eq!(t1.children[0].size, 3);
    assert_eq!(t2.children[0].size, 3);
}

#[test]
fn failed_metadata_still_creates_the_path() {
    let mut rec = PathSizeRecorder::new("R".to_string(), DataType::FileSize);
    rec.merge_entry(&comps(&["ok"]), get_size(DataType::FileSize, Some(40)));
    rec.merge_entry(&comps(&["dir", "unreadable"]), get_size(DataType::FileSize, None));
    let tree = TreeNode::from_recorder(rec);
    assert_eq!(tree.size, 40);
    assert_eq!(labels(&tree.children), vec!["ok", "dir"]);
    assert_eq!(tree.children[1].size, 0);
    assert_eq!(tree.children[1].children.len(), 1);
    assert_eq!(tree.children[1].children[0].path, "unreadable");
    assert_eq!(tree.children[1].children[0].size, 0);
}

#[test]
fn children_sorted_largest_first_and_ties_keep_order() {
    let mut rec = PathSizeRecorder::new("R".to_string(), DataType::FileSize);
    rec.merge_entry(&comps(&["c1"]), 5);
    rec.merge_entry(&comps(&["c2"]), 9);
    rec.merge_entry(&comps(&["c3"]), 5);
    rec.merge_entry(&comps(&["c4"]), 9);
    rec.merge_entry(&comps(&["c5"]), 1);
    let tree = TreeNode::from_recorder(rec);
    assert_eq!(labels(&tree.children), vec!["c2", "c4", "c1", "c3", "c5"]);
    assert!(!tree.is_expanded);
    assert!(tree.children.iter().all(|c| !c.is_expanded));
}

#[test]
fn parent_size_is_sum_of_children_for_file_entries() {
    let mut rec = PathSizeRecorder::new("R".to_string(), DataType::FileSize);
    rec.merge_entry(&comps(&["a", "x"]), 7);
    rec.merge_entry(&comps(&["a", "y"]), 2);
    rec.merge_entry(&comps(&["b"]), 4);
    let tree = TreeNode::from_recorder(rec);
    assert_eq!(tree.path, "R");
    assert_eq!(tree.size, tree.children.iter().map(|c| c.size).sum::<u64>());
    let a = &tree.children[0];
    assert_eq!(a.size, a.children.iter().map(|c| c.size).sum::<u64>());
    assert_eq!(a.size, 9);
}

#[test]
fn empty_recorder_gives_a_leaf_root() {
    let rec = PathSizeRecorder::new("empty".to_string(), DataType::FileSize);
    let tree = TreeNode::from_recorder(rec);
    assert_eq!(tree.size, 0);
    assert!(tree.children.is_empty());
}

#[test]
fn own_contribution_and_children_make_the_total() {
    let mut rec = PathSizeRecorder::new("R".to_string(), DataType::FileSize);
    rec.merge_entry(&comps(&["a"]), 4096);
    rec.merge_entry(&comps(&["a", "x"]), 10);
    let a = &rec.data.children[0].1;
    assert_eq!(a.size, 4106);
    assert_eq!(a.own_size, 4096);
    assert_eq!(a.size, a.own_size + a.children[0].1.size);
    assert_eq!(a.children[0].1.own_size, 10);
    assert_eq!(rec.data.own_size, 0);
    assert_eq!(a.data_type, DataType::FileSize);
}

#[test]
fn zero_contribution_paths_reach_the_tree() {
    let mut rec = PathSizeRecorder::new("R".to_string(), DataType::FileSize);
    rec.merge_entry(&comps(&["d", "e", "f"]), 0);
    assert_eq!(rec.data.children.len(), 1);
    assert_eq!(rec.data.children[0].1.children[0].1.children[0].0, "f");
    let tree = TreeNode::from_recorder(rec);
    assert_eq!(tree.children[0].path, "d");
    assert_eq!(tree.children[0].children[0].path, "e");
    assert_eq!(tree.children[0].children[0].children[0].path, "f");
    assert_eq!(tree.children[0].children[0].children[0].size, 0);
    assert!(tree.children[0].children[0].children[0].children.is_empty());
}

#[test]
fn merge_orders_give_the_same_keys() {
    let entries = [comps(&["a", "x"]), comps(&["b"]), comps(&["a", "y", "z"])];
    let mut one = PathSizeRecorder::new("R".to_string(), DataType::FileSize);
    let mut two = PathSizeRecorder::new("R".to_string(), DataType::FileSize);
    for (n, e) in entries.iter().enumerate() {
        one.merge_entry(e, n as u64 + 1);
    }
    for (n, e) in entries.iter().enumerate().rev() {
        two.merge_entry(e, n as u64 + 1);
    }
    fn keys(r: &dui::crawl::PathSizeRecord, prefix: String, out: &mut Vec<(String, u64)>) {
        for (k, c) in r.children.iter() {
            let p = format!("{}/{}", prefix, k);
            out.push((p.clone(), c.size));
            keys(c, p, out);
        }
    }
    let mut k1 = Vec::new();
    let mut k2 = Vec::new();
    keys(&one.data, String::new(), &mut k1);
    keys(&two.data, String::new(), &mut k2);
    k1.sort();
    k2.sort();
    assert_eq!(k1, k2);
    assert_eq!(k1.len(), 5);
}
