use sysdoc::model::SectionNumber;

#[test]
fn test_section_number_parse() {
    let num = SectionNumber::parse("01.01").unwrap();
    assert_eq!(num.parts, vec![1, 1]);
    assert_eq!(num.depth(), 1);

    let num = SectionNumber::parse("02.03.01").unwrap();
    assert_eq!(num.parts, vec![2, 3, 1]);
    assert_eq!(num.depth(), 2);
}

#[test]
fn test_section_number_ordering() {
    let num1 = SectionNumber::parse("01.01").unwrap();
    let num2 = SectionNumber::parse("01.02").unwrap();
    let num3 = SectionNumber::parse("02.01").unwrap();

    assert!(num1 < num2);
    assert!(num2 < num3);
}

#[test]
fn ordering_is_by_number_not_by_text() {
    let two_one = SectionNumber::parse("2.1").unwrap();
    let one_ten = SectionNumber::parse("1.10").unwrap();
    assert!(two_one > one_ten);
    assert!(one_ten < two_one);
    assert!(one_ten.comes_before(&two_one));
    assert!(!two_one.comes_before(&one_ten));

    let nine = SectionNumber::parse("9").unwrap();
    let ten = SectionNumber::parse("10").unwrap();
    assert!(nine < ten);
}

#[test]
fn strict_prefix_sorts_first() {
    let parent = SectionNumber::parse("1.2").unwrap();
    let child = SectionNumber::parse("1.2.1").unwrap();
    assert!(parent < child);
    assert!(!(child < parent));
    assert!(parent != child);
}

#[test]
fn equal_numbers_compare_equal() {
    let a = SectionNumber::parse("01.02").unwrap();
    let b = SectionNumber::parse("1.2").unwrap();
    assert!(a == b);
    assert!(a.same_as(&b));
    assert!(!(a < b));
    assert!(!(b < a));
    assert!(a <= b);
    assert_eq!(a.partial_cmp(&b), Some(std::cmp::Ordering::Equal));
    assert_eq!(a.cmp(&b), std::cmp::Ordering::Equal);
}

#[test]
fn derived_and_written_order_agree() {
    let texts = ["1", "1.1", "1.2", "1.10", "2", "2.0", "10.1"];
    for a in texts {
        for b in texts {
            let x = SectionNumber::parse(a).unwrap();
            let y = SectionNumber::parse(b).unwrap();
            assert_eq!(x.partial_cmp(&y), Some(x.cmp(&y)));
            assert_eq!(x.comes_before(&y), x.cmp(&y) == std::cmp::Ordering::Less);
        }
    }
}

#[test]
fn malformed_component_yields_no_number() {
    assert!(SectionNumber::parse("ab.01").is_none());
    assert!(SectionNumber::parse("").is_none());
    assert!(SectionNumber::parse("1.").is_none());
    assert!(SectionNumber::parse(".1").is_none());
    assert!(SectionNumber::parse("1..2").is_none());
    assert!(SectionNumber::parse("1.-2").is_none());
    assert!(SectionNumber::parse("1. 2").is_none());
    assert!(SectionNumber::parse("1_000").is_none());
    assert!(SectionNumber::parse("+").is_none());
}

#[test]
fn components_follow_integer_notation() {
    assert_eq!(SectionNumber::parse("+1.007").unwrap().parts, vec![1, 7]);
    assert_eq!(SectionNumber::parse("0").unwrap().parts, vec![0]);
    assert_eq!(SectionNumber::parse("4294967295").unwrap().parts, vec![4294967295]);
    assert!(SectionNumber::parse("4294967296").is_none());
    assert!(SectionNumber::parse("99999999999999999999999999").is_none());
    assert_eq!(SectionNumber::parse("000000000000000000000000012").unwrap().parts, vec![12]);
}

#[test]
fn depth_is_components_less_one() {
    assert_eq!(SectionNumber::parse("7").unwrap().depth(), 0);
    assert_eq!(SectionNumber::parse("7.1.2.3").unwrap().depth(), 3);
    assert_eq!(SectionNumber { parts: vec![] }.depth(), 0);
}

#[test]
fn display_is_dot_joined() {
    assert_eq!(SectionNumber::parse("01.02").unwrap().to_string(), "1.2");
    assert_eq!(SectionNumber::parse("10").unwrap().to_string(), "10");
    assert_eq!(SectionNumber::parse("2.0.305").unwrap().to_string(), "2.0.305");
    assert_eq!(SectionNumber { parts: vec![4294967295, 0] }.to_string(), "4294967295.0");
    assert_eq!(SectionNumber { parts: vec![] }.to_string(), "");
}

#[test]
fn clone_keeps_the_components() {
    let a = SectionNumber::parse("3.1.4").unwrap();
    let b = a.clone();
    assert_eq!(a.parts, b.parts);
}

#[test]
fn display_reads_back_as_the_same_number() {
    for parts in [vec![0], vec![1, 2], vec![10, 0, 7], vec![4294967295], vec![3, 14, 159, 2653]] {
        let number = SectionNumber { parts: parts.clone() };
        let shown = number.to_string();
        assert_eq!(SectionNumber::parse(&shown).unwrap().parts, parts);
    }
}
