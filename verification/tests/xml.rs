use mango::xml::escape;

#[test]
fn escapes_special_characters() {
    assert_eq!(escape("&"), "&amp;");
    assert_eq!(escape("<"), "&lt;");
    assert_eq!(escape(">"), "&gt;");
    assert_eq!(escape("\""), "&quot;");
    assert_eq!(escape("'"), "&apos;");
    assert_eq!(
        escape(r#"<a href="x?a=1&b='2'">"#),
        "&lt;a href=&quot;x?a=1&amp;b=&apos;2&apos;&quot;&gt;"
    );
    assert_eq!(escape("&amp;"), "&amp;amp;", "no double-escape detection");
}

#[test]
fn leaves_other_text_unchanged() {
    assert_eq!(escape(""), "");
    assert_eq!(
        escape("plain text / café – ünï 123"),
        "plain text / café – ünï 123"
    );
}

#[test]
fn escaping_a_concatenation_escapes_each_part() {
    let a = "Tom & \"Jerry\"";
    let b = " <3 it's";
    assert_eq!(escape(&format!("{a}{b}")), format!("{}{}", escape(a), escape(b)));
}
