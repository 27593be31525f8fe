use tmt::fonts::{font_sizes, resize_fonts};

#[test]
fn font_sizes_are_found_in_order() {
    let xml = r#"<w:rPr><w:sz w:val="24"/><w:szCs w:val="28"/></w:rPr>"#;
    assert_eq!(font_sizes(xml), vec![24, 28]);
    assert_eq!(
        resize_fonts(xml, &vec![20, 23]),
        r#"<w:rPr><w:sz w:val="20"/><w:szCs w:val="23"/></w:rPr>"#
    );
}

#[test]
fn font_size_forms() {
    assert_eq!(font_sizes("<w:sz \n\t w:val=\"007\"/>"), vec![7]);
    assert_eq!(resize_fonts("<w:sz \n\t w:val=\"007\"/>", &vec![6]), "<w:sz \n\t w:val=\"6\"/>");
    assert_eq!(font_sizes("<w:szX w:val=\"5\"/>"), Vec::<u32>::new());
    assert_eq!(font_sizes("<w:szCsw:val=\"5\"/>"), Vec::<u32>::new());
    assert_eq!(font_sizes("<w:sz w:val=\"5x\"/>"), Vec::<u32>::new());
    assert_eq!(font_sizes("<w:sz w:val=\"\"/>"), Vec::<u32>::new());
    assert_eq!(font_sizes(""), Vec::<u32>::new());
}

#[test]
fn font_sizes_beyond_i32_are_kept() {
    let xml = "<w:sz w:val=\"99999999999\"/><w:sz w:val=\"2147483647\"/><w:sz w:val=\"2147483648\"/>";
    assert_eq!(font_sizes(xml), vec![2147483647]);
    assert_eq!(
        resize_fonts(xml, &vec![10]),
        "<w:sz w:val=\"99999999999\"/><w:sz w:val=\"10\"/><w:sz w:val=\"2147483648\"/>"
    );
}
