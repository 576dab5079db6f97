use unpacker_rs::string_array::replace_strings;
use unpacker_rs::words::decode_words;
use unpacker_rs::unbaser::Unbaser;

fn chars(s: &str) -> Vec<char> {
    s.chars().collect()
}

fn text(v: &[char]) -> String {
    v.iter().collect()
}

#[test]
fn inline_replaces_references_and_drops_declaration() {
    let out = replace_strings(&chars("var _0x1=[\"a\",\"b\"];f(_0x1[0],_0x1[1]);"));
    assert_eq!(text(&out), "f(\"a\",\"b\");");
}

#[test]
fn inline_without_declaration_is_identity_and_idempotent() {
    let src = chars("f(_0x1[0]); var x=[1];");
    let once = replace_strings(&src);
    assert_eq!(once, src);
    assert_eq!(replace_strings(&once), once);
    let first = replace_strings(&chars("var _t=[\"q\"];g(_t[0]);"));
    assert_eq!(replace_strings(&first), first);
}

#[test]
fn inline_handles_only_first_declaration() {
    let out = replace_strings(&chars("var _a=[\"x\"];var _b=[\"y\"];h(_a[0],_b[0]);"));
    assert_eq!(text(&out), "var _b=[\"y\"];h(\"x\",_b[0]);");
}

#[test]
fn inline_splits_at_quote_comma_quote() {
    let out = replace_strings(&chars("var _s=[\"a\",\"b\",\"c\"];k(_s[2],_s[10]);"));
    assert_eq!(text(&out), "k(\"c\",_s[10]);");
}

#[test]
fn decode_words_keeps_unresolved_tokens() {
    let table = vec![chars("zero"), chars(""), chars("two")];
    let unbaser = Unbaser::new(10).unwrap();
    let out = decode_words(&chars("0+1-2*3 x_0 02"), &table, &unbaser);
    assert_eq!(text(&out), "zero+1-two*3 x_0 two");
}

#[test]
fn inline_accepts_any_identifier() {
    let out = replace_strings(&chars("var a=[\"x\"];a[0]"));
    assert_eq!(text(&out), "\"x\"");
    let out = replace_strings(&chars("var  tbl2=[\"p\",\"q\"];g(tbl2[1]);"));
    assert_eq!(text(&out), "g(\"q\");");
    let src = chars("var 9a=[\"x\"];9a[0]");
    assert_eq!(replace_strings(&src), src);
}
