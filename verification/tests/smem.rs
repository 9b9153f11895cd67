use mir_lower::smem::{
    compute_max_dynamic_smem_alignment, dynamic_smem_symbol, DynamicSmemAlignmentMap, MirOp,
};

fn shared(alignment: u64) -> MirOp {
    MirOp::ExternShared { alignment }
}

#[test]
fn the_largest_alignment_counts() {
    assert_eq!(compute_max_dynamic_smem_alignment(&[]), None);
    assert_eq!(compute_max_dynamic_smem_alignment(&[vec![], vec![MirOp::Other]]), None);
    assert_eq!(
        compute_max_dynamic_smem_alignment(&[
            vec![MirOp::Other, shared(16), shared(4)],
            vec![],
            vec![shared(128), MirOp::Other, shared(8)],
        ]),
        Some(128)
    );
    assert_eq!(compute_max_dynamic_smem_alignment(&[vec![shared(0)]]), Some(0));
}

#[test]
fn the_symbol_holds_the_function_name() {
    assert_eq!(dynamic_smem_symbol("reduce").unwrap().to_string(), "__dynamic_smem_reduce");
    assert_eq!(dynamic_smem_symbol("").unwrap().to_string(), "__dynamic_smem_");
    assert_eq!(dynamic_smem_symbol("2nd_Pass").unwrap().to_string(), "__dynamic_smem_2nd_Pass");
}

#[test]
fn some_names_make_no_symbol() {
    for name in ["a b", "map::f", "caf\u{e9}", "x-y", "x.1"] {
        assert!(dynamic_smem_symbol(name).is_none(), "{name}");
    }
}

#[test]
fn the_map_keeps_the_last_note_of_each_function() {
    let mut map = DynamicSmemAlignmentMap::new();
    assert!(map.get("a").is_none());
    map.insert("a".to_string(), dynamic_smem_symbol("a").unwrap(), 16);
    map.insert("b".to_string(), dynamic_smem_symbol("b").unwrap(), 32);
    map.insert("a".to_string(), dynamic_smem_symbol("c").unwrap(), 8);
    let (symbol, alignment) = map.get("a").unwrap();
    assert_eq!((symbol.to_string().as_str(), alignment), ("__dynamic_smem_c", 8));
    let (symbol, alignment) = map.get("b").unwrap();
    assert_eq!((symbol.to_string().as_str(), alignment), ("__dynamic_smem_b", 32));
    assert!(map.get("c").is_none());
}
