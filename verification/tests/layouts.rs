use mir_lower::error::LoweringErrorOf;
use mir_lower::layout::{
    parse_layout_entry, parse_layouts, parse_listed_indices, parse_u64_list, parse_usize_list,
    ExplicitStructLayout,
};
use mir_lower::number::NumberError;

fn layout(mem_to_decl: &[usize], field_offsets: &[u64], total_size: u64) -> ExplicitStructLayout {
    ExplicitStructLayout {
        mem_to_decl: mem_to_decl.to_vec(),
        field_offsets: field_offsets.to_vec(),
        total_size,
    }
}

#[test]
fn lists_of_numbers() {
    assert_eq!(parse_usize_list("", "memory order"), Ok(vec![]));
    assert_eq!(parse_usize_list("2,0,1", "memory order"), Ok(vec![2, 0, 1]));
    assert_eq!(parse_u64_list("", "field offsets"), Ok(vec![]));
    assert_eq!(
        parse_u64_list("0,8,18446744073709551615", "field offsets"),
        Ok(vec![0, 8, u64::MAX])
    );
}

#[test]
fn a_list_fails_at_its_first_bad_value() {
    let e = parse_usize_list("1,x,,3", "memory order").unwrap_err();
    assert_eq!(
        e,
        LoweringErrorOf::InvalidListValue {
            label: "memory order".to_string(),
            part: "x".to_string(),
            error: NumberError::InvalidDigit,
        }
    );
    assert_eq!(
        e.message(),
        "Invalid memory order value `x`: invalid digit found in string"
    );
    assert_eq!(
        parse_u64_list("4,", "field offsets").unwrap_err().message(),
        "Invalid field offsets value ``: cannot parse integer from empty string"
    );
    assert_eq!(
        parse_u64_list("18446744073709551616", "field offsets").unwrap_err().message(),
        "Invalid field offsets value `18446744073709551616`: number too large to fit in target type"
    );
}

#[test]
fn listed_indices_pass_over_what_is_no_number() {
    assert_eq!(parse_listed_indices(""), Vec::<usize>::new());
    assert_eq!(parse_listed_indices("0,2,5"), vec![0, 2, 5]);
    assert_eq!(parse_listed_indices("0, 2,x,,-1,3"), vec![0, 3]);
}

#[test]
fn one_layout() {
    assert_eq!(
        parse_layout_entry("1:1,0:16,0:32"),
        Ok((1, layout(&[1, 0], &[16, 0], 32)))
    );
    assert_eq!(parse_layout_entry("0:::0"), Ok((0, layout(&[], &[], 0))));
}

#[test]
fn layout_failures() {
    assert_eq!(
        parse_layout_entry("1:0:0"),
        Err(LoweringErrorOf::InvalidLayoutEntry { entry: "1:0:0".to_string() })
    );
    assert_eq!(
        parse_layout_entry("1:0:0:4:").unwrap_err().message(),
        "Invalid opaque kernel arg layout entry `1:0:0:4:`"
    );
    assert_eq!(
        parse_layout_entry("a:b:c:d"),
        Err(LoweringErrorOf::InvalidLayoutIndex {
            text: "a".to_string(),
            error: NumberError::InvalidDigit,
        })
    );
    assert_eq!(
        parse_layout_entry(":0:0:4").unwrap_err().message(),
        "Invalid opaque kernel arg layout index ``: cannot parse integer from empty string"
    );
    assert_eq!(
        parse_layout_entry("0:b:c:d").unwrap_err().message(),
        "Invalid memory order value `b`: invalid digit found in string"
    );
    assert_eq!(
        parse_layout_entry("0:0:c:d").unwrap_err().message(),
        "Invalid field offsets value `c`: invalid digit found in string"
    );
    assert_eq!(
        parse_layout_entry("0:0:0:d"),
        Err(LoweringErrorOf::InvalidLayoutSize {
            text: "d".to_string(),
            error: NumberError::InvalidDigit,
        })
    );
    assert_eq!(
        parse_layout_entry("0:0:0:-4").unwrap_err().message(),
        "Invalid opaque kernel arg layout total size `-4`: invalid digit found in string"
    );
}

#[test]
fn several_layouts() {
    assert_eq!(parse_layouts(""), Ok(vec![]));
    assert_eq!(parse_layouts(" \n\t"), Ok(vec![]));
    assert_eq!(parse_layouts(";;"), Ok(vec![]));
    assert_eq!(
        parse_layouts("0:0:0:4;;3:1,0:8,0:16;"),
        Ok(vec![(0, layout(&[0], &[0], 4)), (3, layout(&[1, 0], &[8, 0], 16))])
    );
    assert_eq!(
        parse_layouts("0:0:0:4; "),
        Err(LoweringErrorOf::InvalidLayoutEntry { entry: " ".to_string() })
    );
    assert_eq!(
        parse_layouts("0:0:0:4;1;x:0:0:4"),
        Err(LoweringErrorOf::InvalidLayoutEntry { entry: "1".to_string() })
    );
}

#[test]
fn written_layouts_read_back() {
    let layouts = vec![
        (0, layout(&[], &[], 0)),
        (2, layout(&[2, 0, 1], &[8, 0, 4], 16)),
        (usize::MAX, layout(&[usize::MAX], &[u64::MAX], u64::MAX)),
    ];
    let list = |numbers: Vec<String>| numbers.join(",");
    let text = layouts
        .iter()
        .map(|(arg, l)| {
            format!(
                "{arg}:{}:{}:{}",
                list(l.mem_to_decl.iter().map(|n| n.to_string()).collect()),
                list(l.field_offsets.iter().map(|n| n.to_string()).collect()),
                l.total_size
            )
        })
        .collect::<Vec<_>>()
        .join(";");
    assert_eq!(parse_layouts(&text), Ok(layouts));
}

#[test]
fn layouts_are_the_same_when_all_their_parts_are() {
    let l = layout(&[1, 0], &[8, 0], 16);
    assert!(l.is_same(&layout(&[1, 0], &[8, 0], 16)));
    assert!(!l.is_same(&layout(&[0, 1], &[8, 0], 16)));
    assert!(!l.is_same(&layout(&[1, 0, 2], &[8, 0], 16)));
    assert!(!l.is_same(&layout(&[1, 0], &[0, 8], 16)));
    assert!(!l.is_same(&layout(&[1, 0], &[8], 16)));
    assert!(!l.is_same(&layout(&[1, 0], &[8, 0], 24)));
}
