use forrust_fire_tree::ashes::codec::{
    classify_key, AshDeserStorage, DecodeError, WireEntry, WireKey, WireToken,
};
use forrust_fire_tree::ashes::{Ashes, BranchId};
use forrust_fire_tree::fire::ForestFire;
use forrust_fire_tree::internal::ROOT_VALUE;

fn key(k: &str) -> WireToken<u32> {
    WireToken::Key(k.to_string())
}

fn leaf(k: &str, v: u32) -> Vec<WireToken<u32>> {
    vec![key(k), WireToken::MapStart, key("v"), WireToken::Payload(v), WireToken::MapEnd]
}

fn with_payloads(ashes: &Ashes<u32>, tokens: Vec<WireToken<BranchId>>) -> Vec<WireToken<u32>> {
    tokens
        .into_iter()
        .map(|t| match t {
            WireToken::MapStart => WireToken::MapStart,
            WireToken::Key(k) => WireToken::Key(k),
            WireToken::Payload(id) => WireToken::Payload(*ashes.branch(id).payload().unwrap()),
            WireToken::MapEnd => WireToken::MapEnd,
        })
        .collect()
}

fn to_json(tokens: &[WireToken<u32>]) -> String {
    let mut out = String::new();
    let mut first = true;
    for t in tokens {
        match t {
            WireToken::MapStart => {
                out.push('{');
                first = true;
            }
            WireToken::Key(k) => {
                if !first {
                    out.push(',');
                }
                out.push_str(&format!("\"{k}\":"));
                first = false;
            }
            WireToken::Payload(v) => out.push_str(&v.to_string()),
            WireToken::MapEnd => out.push('}'),
        }
    }
    out
}

fn decode(tokens: Vec<WireToken<u32>>) -> Result<Ashes<u32>, DecodeError> {
    let mut storage = AshDeserStorage::<u32>::new();
    storage.deser(tokens)?;
    Ok(std::mem::replace(&mut storage.ashes, Ashes::new()))
}

fn payloads_of(ashes: &Ashes<u32>, id: BranchId) -> Vec<u32> {
    ashes
        .branch(id)
        .child_iter()
        .into_iter()
        .map(|c| *ashes.branch(c).payload().unwrap())
        .collect()
}

fn scenario() -> ForestFire<u32> {
    let mut fire = ForestFire::new();
    let a = fire.branch(BranchId::ROOT, 0);
    let b = fire.branch(BranchId::ROOT, 2);
    fire.branch(a, 1);
    fire.branch(b, 3);
    fire.branch(b, 4);
    fire
}

#[test]
fn scenario_burns_and_encodes() {
    let ashes = scenario().burn();
    assert_eq!(payloads_of(&ashes, BranchId::ROOT), vec![0, 2]);
    let root = ashes.root();
    assert_eq!(payloads_of(&ashes, root.child(0)), vec![1]);
    assert_eq!(payloads_of(&ashes, root.child(1)), vec![3, 4]);
    let json = to_json(&with_payloads(&ashes, ashes.encode()));
    assert_eq!(json, r#"{"0":{"v":0,"0":{"v":1}},"1":{"v":2,"0":{"v":3},"1":{"v":4}}}"#);
}

#[test]
fn empty_tree_round_trip() {
    let ashes = ForestFire::<u32>::new().burn();
    assert_eq!(ashes.node_count(), 0);
    assert_eq!(ashes.root_children(), BranchId::Branch(0)..BranchId::Branch(0));
    let tokens = with_payloads(&ashes, ashes.encode());
    assert_eq!(to_json(&tokens), "{}");
    let back = decode(tokens).unwrap();
    assert_eq!(back.node_count(), 0);
    assert!(back.root_children().is_empty());
}

#[test]
fn payload_in_root_is_refused() {
    let mut tokens = vec![WireToken::MapStart, key("v"), WireToken::Payload(7)];
    tokens.extend(leaf("0", 1));
    tokens.push(WireToken::MapEnd);
    assert_eq!(decode(tokens).err(), Some(DecodeError::PayloadInRoot));
}

#[test]
fn missing_child_position_is_refused() {
    let mut tokens = vec![WireToken::MapStart];
    tokens.extend(leaf("0", 1));
    tokens.extend(leaf("2", 3));
    tokens.push(WireToken::MapEnd);
    assert_eq!(decode(tokens).err(), Some(DecodeError::MissingChild(1)));
}

#[test]
fn duplicate_payload_is_refused() {
    let tokens = vec![
        WireToken::MapStart,
        key("0"),
        WireToken::MapStart,
        key("v"),
        WireToken::Payload(1),
        key("v"),
        WireToken::Payload(2),
        WireToken::MapEnd,
        WireToken::MapEnd,
    ];
    assert_eq!(decode(tokens).err(), Some(DecodeError::DuplicatePayload));
}

#[test]
fn duplicate_child_position_is_refused() {
    let mut tokens = vec![WireToken::MapStart];
    tokens.extend(leaf("0", 1));
    tokens.extend(leaf("0", 2));
    tokens.push(WireToken::MapEnd);
    assert_eq!(decode(tokens).err(), Some(DecodeError::DuplicateChild(0)));
}

#[test]
fn missing_payload_is_refused() {
    let tokens = vec![
        WireToken::MapStart,
        key("0"),
        WireToken::MapStart,
        WireToken::MapEnd,
        WireToken::MapEnd,
    ];
    assert_eq!(decode(tokens).err(), Some(DecodeError::MissingPayload));
}

#[test]
fn unknown_key_is_refused() {
    let tokens = vec![WireToken::MapStart, key("w"), WireToken::Payload(1), WireToken::MapEnd];
    assert_eq!(decode(tokens).err(), Some(DecodeError::UnknownKey));
}

#[test]
fn child_that_is_not_a_map_is_refused() {
    let tokens = vec![WireToken::MapStart, key("0"), WireToken::Payload(1), WireToken::MapEnd];
    assert_eq!(decode(tokens).err(), Some(DecodeError::NotAMap));
    assert_eq!(decode(vec![WireToken::Payload(1)]).err(), Some(DecodeError::NotAMap));
}

#[test]
fn malformed_streams_are_refused() {
    assert_eq!(decode(vec![]).err(), Some(DecodeError::UnexpectedToken));
    assert_eq!(decode(vec![WireToken::MapStart]).err(), Some(DecodeError::UnexpectedToken));
    let trailing = vec![WireToken::MapStart, WireToken::MapEnd, WireToken::MapEnd];
    assert_eq!(decode(trailing).err(), Some(DecodeError::UnexpectedToken));
    let no_value = vec![WireToken::MapStart, key("v"), WireToken::MapEnd];
    assert_eq!(decode(no_value).err(), Some(DecodeError::UnexpectedToken));
}

#[test]
fn decoding_reuses_storage() {
    let mut storage = AshDeserStorage::<u32>::new();
    let mut first = vec![WireToken::MapStart];
    first.extend(leaf("1", 20));
    first.extend(leaf("0", 10));
    first.push(WireToken::MapEnd);
    storage.deser(first).unwrap();
    assert_eq!(payloads_of(&storage.ashes, BranchId::ROOT), vec![10, 20]);
    let mut second = vec![WireToken::MapStart];
    second.extend(leaf("0", 5));
    second.push(WireToken::MapEnd);
    storage.deser(second).unwrap();
    assert_eq!(storage.ashes.node_count(), 1);
    assert_eq!(payloads_of(&storage.ashes, BranchId::ROOT), vec![5]);
}

#[test]
fn siblings_keep_insertion_order() {
    let mut fire = ForestFire::new();
    let p = fire.branch(BranchId::ROOT, 100);
    let q = fire.branch(BranchId::ROOT, 200);
    for v in 0..5u32 {
        fire.branch(q, 10 + v);
        fire.branch(p, v);
    }
    let ashes = fire.burn();
    assert_eq!(payloads_of(&ashes, ashes.root().child(0)), vec![0, 1, 2, 3, 4]);
    assert_eq!(payloads_of(&ashes, ashes.root().child(1)), vec![10, 11, 12, 13, 14]);
}

#[test]
fn ranges_cover_every_node_once() {
    let ashes = scenario().burn();
    let n = ashes.node_count();
    let mut seen = vec![0u32; n];
    let mut ranges = vec![ashes.root_children()];
    for i in 0..n {
        ranges.push(ashes.branch(BranchId::Branch(i)).children());
    }
    for r in ranges {
        for j in r.start.value()..r.end.value() {
            seen[j] += 1;
        }
    }
    assert_eq!(seen, vec![1; n]);
    assert_eq!(ashes.root_children().start, BranchId::Branch(0));
}

#[test]
fn burning_keeps_parents_and_payloads() {
    let ashes = scenario().burn();
    let order = ashes.pre_order();
    let visited: Vec<(Option<u32>, usize)> = order
        .iter()
        .map(|&(id, depth)| (ashes.branch(id).payload().copied(), depth))
        .collect();
    assert_eq!(
        visited,
        vec![(None, 0), (Some(0), 1), (Some(1), 2), (Some(2), 1), (Some(3), 2), (Some(4), 2)]
    );
    for &(id, _) in &order[1..] {
        let parent = ashes.branch(id).parent().unwrap();
        let siblings = ashes.branch(parent).child_iter();
        assert!(siblings.contains(&id));
    }
}

#[test]
fn decoded_tree_round_trips() {
    let ashes = scenario().burn();
    let tokens = with_payloads(&ashes, ashes.encode());
    let json = to_json(&tokens);
    let back = decode(tokens).unwrap();
    assert_eq!(to_json(&with_payloads(&back, back.encode())), json);
}

#[test]
fn wide_nodes_get_decimal_keys() {
    let mut fire = ForestFire::new();
    for v in 0..12u32 {
        fire.branch(BranchId::ROOT, v);
    }
    let ashes = fire.burn();
    let tokens = with_payloads(&ashes, ashes.encode());
    let json = to_json(&tokens);
    assert!(json.contains(r#""10":{"v":10}"#));
    assert!(json.contains(r#""11":{"v":11}"#));
    let back = decode(tokens).unwrap();
    assert_eq!(payloads_of(&back, BranchId::ROOT), (0..12).collect::<Vec<u32>>());
}

#[test]
fn keys_are_classified() {
    assert_eq!(classify_key("v"), Some(WireKey::Payload));
    assert_eq!(classify_key("0"), Some(WireKey::Child(0)));
    assert_eq!(classify_key("12"), Some(WireKey::Child(12)));
    assert_eq!(classify_key("+3"), None);
    assert_eq!(classify_key("007"), Some(WireKey::Child(7)));
    assert_eq!(classify_key("18446744073709551615"), Some(WireKey::Child(usize::MAX)));
    assert_eq!(classify_key("18446744073709551616"), None);
    assert_eq!(classify_key(""), None);
    assert_eq!(classify_key("+"), None);
    assert_eq!(classify_key("-1"), None);
    assert_eq!(classify_key("vv"), None);
    assert_eq!(classify_key("1a"), None);
}

#[test]
fn builder_accessors() {
    let mut fire = ForestFire::<u32>::new();
    assert_eq!(fire.next_id(), BranchId::Branch(0));
    let a = fire.branch(BranchId::ROOT, 5);
    let b = fire.branch(a, 6);
    assert_eq!(fire.node_count(), 2);
    assert_eq!(fire.next_id(), BranchId::Branch(2));
    assert!(fire.contains(BranchId::ROOT));
    assert!(fire.contains(b));
    assert!(!fire.contains(BranchId::Branch(2)));
    assert_eq!(fire.parent(b), Some(a));
    assert_eq!(fire.parent(BranchId::ROOT), None);
    assert_eq!(fire.get_payload(BranchId::ROOT), None);
    assert_eq!(fire.get_payload(a), Some(&5));
    *fire.payload_mut(b) += 1;
    assert_eq!(*fire.payload(b), 7);
    if let Some(p) = fire.get_payload_mut(a) {
        *p = 50;
    }
    assert_eq!(*fire.payload(a), 50);
}

#[test]
fn branch_ids_hold_raw_values() {
    assert!(BranchId::new(ROOT_VALUE).is_root());
    assert_eq!(BranchId::ROOT.value(), usize::MAX);
    assert_eq!(BranchId::new(3), BranchId::Branch(3));
    assert_eq!(BranchId::new(3).value(), 3);
    assert!(BranchId::ROOT < BranchId::Branch(0));
}

#[test]
fn payloads_are_writable_after_burning() {
    let mut ashes = scenario().burn();
    let id = ashes.root().child(1);
    {
        let mut branch = ashes.branch_mut(id);
        assert!(!branch.is_root());
        assert_eq!(branch.children_len(), 2);
        *branch.payload().unwrap() = 22;
    }
    assert_eq!(ashes.branch(id).payload(), Some(&22));
    let mut root = ashes.root_mut();
    assert!(root.is_root());
    assert!(root.payload().is_none());
    assert_eq!(root.parent(), None);
    assert_eq!(root.child(1), id);
}

#[test]
fn trees_print_in_pre_order() {
    let ashes = scenario().burn();
    assert_eq!(ashes.print_tree_display(), "$:\n--0:\n----1:\n--2:\n----3:\n----4:\n");
    assert_eq!(ashes.print_tree_debug(), "$:\n--0:\n----1:\n--2:\n----3:\n----4:\n");
    let printer = ashes.print_tree(|v: Option<&u32>, depth: usize| match v {
        Some(v) => format!("{depth}:{v};"),
        None => "root;".to_string(),
    });
    assert_eq!(printer.render(), "root;1:0;2:1;1:2;2:3;2:4;");
    assert_eq!(printer.ashes().node_count(), 5);
}

#[test]
fn cleared_tree_is_empty() {
    let mut ashes = scenario().burn();
    ashes.clear();
    assert_eq!(ashes.node_count(), 0);
    assert!(ashes.root_children().is_empty());
    assert!(!ashes.contains(BranchId::Branch(0)));
}

#[test]
fn payloads_are_converted_while_decoding() {
    let tokens = vec![
        WireToken::MapStart,
        WireToken::Key("0".to_string()),
        WireToken::MapStart,
        WireToken::Key("v".to_string()),
        WireToken::Payload("abc".to_string()),
        WireToken::MapEnd,
        WireToken::MapEnd,
    ];
    let mut storage = AshDeserStorage::<usize>::new();
    storage.deser_with(|s: String| s.len(), tokens).unwrap();
    assert_eq!(storage.ashes.node_count(), 1);
    let root = storage.ashes.root();
    assert_eq!(storage.ashes.branch(root.child(0)).payload(), Some(&3));
}

#[test]
fn repeated_positions_are_duplicates_even_when_out_of_range() {
    let mut tokens = vec![WireToken::MapStart];
    tokens.extend(leaf("5", 1));
    tokens.extend(leaf("5", 2));
    tokens.push(WireToken::MapEnd);
    assert_eq!(decode(tokens).err(), Some(DecodeError::DuplicateChild(5)));
}

#[test]
fn huge_position_is_a_missing_child() {
    let mut tokens = vec![WireToken::MapStart];
    tokens.extend(leaf("18446744073709551615", 1));
    tokens.push(WireToken::MapEnd);
    assert_eq!(decode(tokens).err(), Some(DecodeError::MissingChild(0)));
}

#[test]
fn signed_keys_are_unknown() {
    let mut tokens = vec![WireToken::MapStart];
    tokens.extend(leaf("+0", 1));
    tokens.push(WireToken::MapEnd);
    assert_eq!(decode(tokens).err(), Some(DecodeError::UnknownKey));
}

#[test]
fn empty_map_decodes_to_empty_tree() {
    let ashes = decode(vec![WireToken::MapStart, WireToken::MapEnd]).unwrap();
    assert_eq!(ashes.node_count(), 0);
    assert_eq!(ashes.root_children(), BranchId::Branch(0)..BranchId::Branch(0));
}

#[test]
fn snapshot_payloads_are_writable_by_id() {
    let mut ashes = scenario().burn();
    let id = ashes.root().child(0);
    *ashes.payload_mut(id) = 9;
    assert_eq!(ashes.branch(id).payload(), Some(&9));
    assert_eq!(payloads_of(&ashes, id), vec![1]);
}

#[test]
fn the_root_value_is_the_root() {
    assert!(BranchId::Branch(ROOT_VALUE).is_root());
    assert!(!BranchId::Branch(ROOT_VALUE - 1).is_root());
}

#[test]
fn the_root_value_names_the_root_everywhere() {
    let mut fire = ForestFire::<u32>::new();
    let alias = BranchId::Branch(ROOT_VALUE);
    assert!(fire.contains(alias));
    assert_eq!(fire.parent(alias), None);
    assert_eq!(fire.get_payload(alias), None);
    let a = fire.branch(alias, 1);
    assert_eq!(fire.parent(a), Some(BranchId::ROOT));
    assert!(!fire.next_id().is_root());
    let ashes = fire.burn();
    assert!(ashes.contains(alias));
    assert!(ashes.branch(alias).is_root());
    assert_eq!(ashes.branch(alias).n_children(), 1);
}

#[test]
fn map_entries_are_listed_in_order() {
    let ashes = scenario().burn();
    let root = ashes.entries(BranchId::ROOT);
    let keys: Vec<&str> = root.iter().map(|(k, _)| k.as_str()).collect();
    assert_eq!(keys, vec!["0", "1"]);
    let node = root[1].1;
    let id = match node {
        WireEntry::Child(id) => id,
        WireEntry::Payload(_) => panic!("the root has no payload"),
    };
    let entries = ashes.entries(id);
    assert_eq!(entries[0], ("v".to_string(), WireEntry::Payload(id)));
    assert_eq!(entries.len(), 3);
    assert_eq!(entries[2].0, "1");
}

#[test]
fn missing_parent_attaches_nothing() {
    let mut fire = ForestFire::<u32>::new();
    let a = fire.branch(BranchId::ROOT, 1);
    assert_eq!(fire.try_branch(BranchId::Branch(5), 2), None);
    assert_eq!(fire.node_count(), 1);
    assert_eq!(fire.try_branch(a, 3), Some(BranchId::Branch(1)));
    assert_eq!(fire.parent(BranchId::Branch(1)), Some(a));
}
