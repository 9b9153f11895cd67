use mir_lower::attributes::{
    is_kernel, kernel_key, opaque_kernel_arg_indices, opaque_kernel_arg_layouts,
    propagate_kernel_attrs,
};
use mir_lower::error::LoweringErrorOf;
use mir_lower::layout::ExplicitStructLayout;
use pliron::attribute::AttributeDict;
use pliron::builtin::attributes::{BoolAttr, StringAttr};
use pliron::identifier::Identifier;

fn id(name: &str) -> Identifier {
    Identifier::try_new(name.to_string()).unwrap()
}

fn with_text(dict: &mut AttributeDict, name: &str, text: &str) {
    dict.set(id(name), StringAttr::new(text.to_string()));
}

fn text_of(dict: &AttributeDict, name: &str) -> Option<String> {
    dict.get::<StringAttr>(&id(name)).map(|a| String::from(a.clone()))
}

#[test]
fn a_kernel_is_marked() {
    let mut dict = AttributeDict::default();
    assert!(!is_kernel(&dict));
    with_text(&mut dict, "gpu_kernels", "true");
    assert!(!is_kernel(&dict));
    dict.set(id("gpu_kernel"), BoolAttr::new(false));
    assert!(is_kernel(&dict));
    assert_eq!(kernel_key(), id("gpu_kernel"));
}

#[test]
fn opaque_indices_come_from_a_text() {
    let mut dict = AttributeDict::default();
    assert_eq!(opaque_kernel_arg_indices(&dict), Vec::<usize>::new());
    with_text(&mut dict, "opaque_kernel_args", "0,x,3");
    assert_eq!(opaque_kernel_arg_indices(&dict), vec![0, 3]);
    dict.set(id("opaque_kernel_args"), BoolAttr::new(true));
    assert_eq!(opaque_kernel_arg_indices(&dict), Vec::<usize>::new());
}

#[test]
fn opaque_layouts_come_from_a_text() {
    let mut dict = AttributeDict::default();
    assert_eq!(opaque_kernel_arg_layouts(&dict), Ok(vec![]));
    with_text(&mut dict, "opaque_kernel_arg_layouts", "  ");
    assert_eq!(opaque_kernel_arg_layouts(&dict), Ok(vec![]));
    with_text(&mut dict, "opaque_kernel_arg_layouts", "2:1,0:16,0:32");
    assert_eq!(
        opaque_kernel_arg_layouts(&dict),
        Ok(vec![(
            2,
            ExplicitStructLayout {
                mem_to_decl: vec![1, 0],
                field_offsets: vec![16, 0],
                total_size: 32,
            }
        )])
    );
    with_text(&mut dict, "opaque_kernel_arg_layouts", "2:1,0:16,0");
    assert_eq!(
        opaque_kernel_arg_layouts(&dict),
        Err(LoweringErrorOf::InvalidLayoutEntry { entry: "2:1,0:16,0".to_string() })
    );
}

#[test]
fn layouts_must_be_a_text() {
    let mut dict = AttributeDict::default();
    dict.set(id("opaque_kernel_arg_layouts"), BoolAttr::new(true));
    let e = opaque_kernel_arg_layouts(&dict).unwrap_err();
    assert_eq!(e, LoweringErrorOf::LayoutsNotText);
    assert_eq!(e.message(), "opaque_kernel_arg_layouts attribute must be a string");
}

#[test]
fn kernel_attributes_are_carried_over() {
    let mut mir = AttributeDict::default();
    with_text(&mut mir, "gpu_kernel", "yes");
    with_text(&mut mir, "cluster_dim_x", "2");
    mir.set(id("maxntid"), BoolAttr::new(true));
    with_text(&mut mir, "other", "stays behind");
    let mut llvm = AttributeDict::default();
    with_text(&mut llvm, "cluster_dim_x", "1");
    with_text(&mut llvm, "minctasm", "own");
    with_text(&mut llvm, "linkage", "external");
    propagate_kernel_attrs(&mir, &mut llvm, &kernel_key());
    assert_eq!(text_of(&llvm, "gpu_kernel"), Some("true".to_string()));
    assert_eq!(text_of(&llvm, "cluster_dim_x"), Some("2".to_string()));
    assert_eq!(text_of(&llvm, "minctasm"), Some("own".to_string()));
    assert_eq!(text_of(&llvm, "linkage"), Some("external".to_string()));
    assert_eq!(llvm.get::<BoolAttr>(&id("maxntid")), Some(&BoolAttr::new(true)));
    assert_eq!(text_of(&llvm, "maxntid"), None);
    assert_eq!(text_of(&llvm, "other"), None);
    assert!(!llvm.0.contains_key(&id("cluster_dim_y")));
    assert_eq!(text_of(&mir, "gpu_kernel"), Some("yes".to_string()));
}

#[test]
fn every_launch_attribute_is_carried_over() {
    let mut mir = AttributeDict::default();
    let names = ["cluster_dim_x", "cluster_dim_y", "cluster_dim_z", "maxntid", "minctasm"];
    for name in names {
        with_text(&mut mir, name, name);
    }
    let mut llvm = AttributeDict::default();
    propagate_kernel_attrs(&mir, &mut llvm, &kernel_key());
    for name in names {
        assert_eq!(text_of(&llvm, name), Some(name.to_string()));
    }
    assert_eq!(text_of(&llvm, "gpu_kernel"), Some("true".to_string()));
}

#[test]
fn the_kernel_mark_goes_under_the_given_name() {
    let mir = AttributeDict::default();
    let mut llvm = AttributeDict::default();
    propagate_kernel_attrs(&mir, &mut llvm, &id("entry_point"));
    assert_eq!(text_of(&llvm, "entry_point"), Some("true".to_string()));
    assert!(!is_kernel(&llvm));
}

#[test]
fn carrying_over_twice_changes_nothing() {
    let mut mir = AttributeDict::default();
    with_text(&mut mir, "cluster_dim_z", "4");
    let mut once = AttributeDict::default();
    with_text(&mut once, "linkage", "external");
    propagate_kernel_attrs(&mir, &mut once, &kernel_key());
    let mut twice = once.clone();
    propagate_kernel_attrs(&mir, &mut twice, &kernel_key());
    assert_eq!(once, twice);
}
