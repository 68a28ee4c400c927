use provider_data::codec::InvalidLayout;
use provider_data::date::EraStartDate;
use provider_data::fallback::{FallbackCycle, FallbackMap, MAX_STEPS};
use provider_data::map::SortedMap;
use provider_data::sequence::Sequence;
use provider_data::varseq::VarSequence;

fn strings(items: &[&str]) -> Vec<u8> {
    let mut offsets = vec![0u32];
    let mut payload = Vec::new();
    for item in items {
        payload.extend_from_slice(item.as_bytes());
        offsets.push(payload.len() as u32);
    }
    let mut bytes = Vec::new();
    for offset in offsets {
        bytes.extend_from_slice(&offset.to_le_bytes());
    }
    bytes.extend_from_slice(&payload);
    bytes
}

fn numbers(items: &[u32]) -> Vec<u8> {
    let mut bytes = Vec::new();
    for item in items {
        bytes.extend_from_slice(&item.to_le_bytes());
    }
    bytes
}

fn framed(keys: &[u8], values: &[u8]) -> Vec<u8> {
    let mut bytes = (keys.len() as u32).to_le_bytes().to_vec();
    bytes.extend_from_slice(keys);
    bytes.extend_from_slice(values);
    bytes
}

fn parents(pairs: &[(&str, &str)]) -> Vec<u8> {
    let keys: Vec<&str> = pairs.iter().map(|p| p.0).collect();
    let values: Vec<&str> = pairs.iter().map(|p| p.1).collect();
    framed(&strings(&keys), &strings(&values))
}

#[test]
fn map_get_by_key() {
    let bytes = framed(&strings(&["a", "b", "c"]), &numbers(&[1, 2, 3]));
    let map = SortedMap::<Sequence<u32, 4>>::load(&bytes).unwrap();
    assert_eq!(map.get("b"), Some(2));
    assert_eq!(map.get("z"), None);
    assert_eq!(map.get("a"), Some(1));
    assert_eq!(map.get("c"), Some(3));
    assert_eq!(map.get(""), None);
    assert_eq!(map.get("ab"), None);
    assert_eq!(map.len(), 3);
    assert!(!map.is_empty());
}

#[test]
fn map_get_finds_every_pair_and_nothing_else() {
    let keys = ["", "de", "en", "en-001", "en-150", "en-US", "es", "zh-Hant"];
    let values: Vec<u32> = (0..keys.len() as u32).map(|i| i * 1000 + 7).collect();
    let bytes = framed(&strings(&keys), &numbers(&values));
    let map = SortedMap::<Sequence<u32, 4>>::load(&bytes).unwrap();
    for (key, value) in keys.iter().zip(&values) {
        assert_eq!(map.get(key), Some(*value));
        assert!(map.contains_key(key));
    }
    for absent in ["d", "dee", "en-", "en-002", "en-us", "zh", "zz", "\u{7f}"] {
        assert_eq!(map.get(absent), None);
        assert!(!map.contains_key(absent));
    }
}

#[test]
fn map_pairs_in_key_order() {
    let bytes = framed(&strings(&["a", "b", "c"]), &numbers(&[1, 2, 3]));
    let map = SortedMap::<Sequence<u32, 4>>::load(&bytes).unwrap();
    assert_eq!(map.get_at(0), Some(("a", 1)));
    assert_eq!(map.get_at(1), Some(("b", 2)));
    assert_eq!(map.get_at(2), Some(("c", 3)));
    assert_eq!(map.get_at(3), None);
    let all: Vec<(&str, u32)> = (0..map.len()).map(|i| map.get_at(i).unwrap()).collect();
    assert_eq!(all, vec![("a", 1), ("b", 2), ("c", 3)]);
}

#[test]
fn map_from_parts() {
    let keys = strings(&["1868", "1912"]);
    let values = [
        EraStartDate { year: 1868, month: 1, day: 1 },
        EraStartDate { year: 1912, month: 7, day: 30 },
    ];
    let mut value_bytes = Vec::new();
    for value in values {
        value_bytes.extend_from_slice(&provider_data::date::write_date(&value));
    }
    let map = SortedMap::from_parts(
        VarSequence::from_bytes(&keys).unwrap(),
        Sequence::<EraStartDate, 6>::from_bytes(&value_bytes).unwrap(),
    )
    .unwrap();
    assert_eq!(map.get("1912"), Some(values[1]));
    assert_eq!(map.get("1900"), None);
}

#[test]
fn map_with_string_values() {
    let keys = strings(&["k1", "k2"]);
    let values = strings(&["second", "first"]);
    let map = SortedMap::from_parts(
        VarSequence::from_bytes(&keys).unwrap(),
        VarSequence::from_bytes_unordered(&values).unwrap(),
    )
    .unwrap();
    assert_eq!(map.get("k1"), Some("second"));
    assert_eq!(map.get("k2"), Some("first"));
}

#[test]
fn empty_map() {
    let bytes = framed(&strings(&[]), &numbers(&[]));
    let map = SortedMap::<Sequence<u32, 4>>::load(&bytes).unwrap();
    assert!(map.is_empty());
    assert_eq!(map.get("a"), None);
    assert_eq!(map.get_at(0), None);
}

#[test]
fn map_with_unequal_lengths_is_refused() {
    let bytes = framed(&strings(&["a", "b", "c"]), &numbers(&[1, 2]));
    assert_eq!(SortedMap::<Sequence<u32, 4>>::load(&bytes).err(), Some(InvalidLayout));
    let bytes = framed(&strings(&["a"]), &numbers(&[1, 2]));
    assert_eq!(SortedMap::<Sequence<u32, 4>>::load(&bytes).err(), Some(InvalidLayout));
}

#[test]
fn map_with_keys_out_of_order_is_refused() {
    let bytes = framed(&strings(&["b", "a"]), &numbers(&[1, 2]));
    assert_eq!(SortedMap::<Sequence<u32, 4>>::load(&bytes).err(), Some(InvalidLayout));
}

#[test]
fn map_with_repeated_key_is_refused() {
    let bytes = framed(&strings(&["a", "a"]), &numbers(&[1, 2]));
    assert_eq!(SortedMap::<Sequence<u32, 4>>::load(&bytes).err(), Some(InvalidLayout));
    let keys = strings(&["a", "a"]);
    let values = numbers(&[1, 2]);
    let refused = SortedMap::from_parts(
        VarSequence::from_bytes(&keys).unwrap(),
        Sequence::<u32, 4>::from_bytes(&values).unwrap(),
    );
    assert_eq!(refused.err(), Some(InvalidLayout));
}

#[test]
fn map_with_broken_frame_is_refused() {
    assert_eq!(SortedMap::<Sequence<u32, 4>>::load(&[]).err(), Some(InvalidLayout));
    assert_eq!(SortedMap::<Sequence<u32, 4>>::load(&[4, 0, 0]).err(), Some(InvalidLayout));
    // the key section is said to be longer than the buffer
    let mut bytes = framed(&strings(&["a"]), &numbers(&[1]));
    bytes[0] = 200;
    assert_eq!(SortedMap::<Sequence<u32, 4>>::load(&bytes).err(), Some(InvalidLayout));
    // the value section is no whole number of values
    let mut bytes = framed(&strings(&["a"]), &numbers(&[1]));
    bytes.push(0);
    assert_eq!(SortedMap::<Sequence<u32, 4>>::load(&bytes).err(), Some(InvalidLayout));
}

#[test]
fn chain_from_locale_to_root() {
    let bytes = parents(&[("en-US", "en")]);
    let map = FallbackMap::load(&bytes).unwrap();
    assert_eq!(map.chain("en-US"), Ok(vec!["en-US", "en"]));
    assert_eq!(map.get_parent("en-US"), Some("en"));
    assert_eq!(map.get_parent("en"), None);
}

#[test]
fn chain_of_a_root_is_the_root() {
    let bytes = parents(&[("en-US", "en")]);
    let map = FallbackMap::load(&bytes).unwrap();
    assert_eq!(map.chain("en"), Ok(vec!["en"]));
    assert_eq!(map.chain("fr"), Ok(vec!["fr"]));
    assert_eq!(map.chain(""), Ok(vec![""]));
}

#[test]
fn chain_over_several_parents() {
    let bytes = parents(&[
        ("en-150", "en-001"),
        ("en-AT", "en-150"),
        ("en-001", "en"),
        ("es-AR", "es-419"),
        ("zh-Hant-MO", "zh-Hant-HK"),
    ]
    .iter()
    .copied()
    .collect::<std::collections::BTreeMap<_, _>>()
    .into_iter()
    .collect::<Vec<_>>());
    let map = FallbackMap::load(&bytes).unwrap();
    let chain = map.chain("en-AT").unwrap();
    assert_eq!(chain, vec!["en-AT", "en-150", "en-001", "en"]);
    assert_eq!(map.get_parent(chain.last().unwrap()), None);
    assert_eq!(map.chain("es-AR"), Ok(vec!["es-AR", "es-419"]));
    assert_eq!(map.chain("zh-Hant-MO"), Ok(vec!["zh-Hant-MO", "zh-Hant-HK"]));
    // the same map and locale give the same chain again
    assert_eq!(map.chain("en-AT").unwrap(), chain);
}

#[test]
fn chain_in_a_cycle_fails() {
    let bytes = parents(&[("a", "b"), ("b", "a")]);
    let map = FallbackMap::load(&bytes).unwrap();
    assert_eq!(map.chain("a"), Err(FallbackCycle));
    assert_eq!(map.chain("b"), Err(FallbackCycle));
    assert_eq!(map.chain("c"), Ok(vec!["c"]));
    let bytes = parents(&[("self", "self")]);
    let map = FallbackMap::load(&bytes).unwrap();
    assert_eq!(map.chain("self"), Err(FallbackCycle));
}

#[test]
fn chain_follows_as_many_parents_as_allowed_and_no_more() {
    assert_eq!(MAX_STEPS, 32);
    let names: Vec<String> = (0..40).map(|i| format!("l{i:02}")).collect();
    let pairs: Vec<(&str, &str)> =
        (0..39).map(|i| (names[i].as_str(), names[i + 1].as_str())).collect();
    let bytes = parents(&pairs);
    let map = FallbackMap::load(&bytes).unwrap();
    // 32 parents from l07 up to l39
    let chain = map.chain("l07").unwrap();
    assert_eq!(chain.len(), 33);
    assert_eq!(chain[0], "l07");
    assert_eq!(chain[32], "l39");
    // 33 parents from l06
    assert_eq!(map.chain("l06"), Err(FallbackCycle));
    assert_eq!(map.chain("l00"), Err(FallbackCycle));
    assert_eq!(map.chain("l38"), Ok(vec!["l38", "l39"]));
}

#[test]
fn fallback_map_refuses_broken_buffers() {
    assert_eq!(FallbackMap::load(&[1, 2, 3]).err(), Some(InvalidLayout));
    let bytes = parents(&[("b", "x"), ("a", "y")]);
    assert_eq!(FallbackMap::load(&bytes).err(), Some(InvalidLayout));
    let bytes = framed(&strings(&["a", "b"]), &strings(&["x"]));
    assert_eq!(FallbackMap::load(&bytes).err(), Some(InvalidLayout));
    let mut bytes = parents(&[("a", "b")]);
    let last = bytes.len() - 1;
    bytes[last] = 0xFF;
    assert_eq!(FallbackMap::load(&bytes).err(), Some(InvalidLayout));
}
