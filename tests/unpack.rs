use unpacker_rs::{detect, unpack, unpack_unchecked};

#[test]
fn test_detect() {
    fn positive(input: &str) {
        assert!(detect(input), "Should detect P.A.C.K.E.R. in: {}", input);
    }

    fn negative(input: &str) {
        assert!(
            !detect(input),
            "Should NOT detect P.A.C.K.E.R. in: {}",
            input
        );
    }

    negative("");
    negative("var a = b");

    positive("eval(function(p,a,c,k,e,r");
    positive("eval ( function(p, a, c, k, e, r");
}

#[test]
fn test_unpack() {
    fn check(input: &str, expected: &str) {
        let result = unpack(input).unwrap();
        assert_eq!(result, expected, "Unpacking failed for input");
    }
    check(
        "eval(function(p,a,c,k,e,r){e=String;if(!''.replace(/^/,String)){while(c--)r[c]=k[c]||c;k=[function(e){return r[e]}];e=function(){return'\\\\w+'};c=1};while(c--)if(k[c])p=p.replace(new RegExp('\\\\b'+e(c)+'\\\\b','g'),k[c]);return p}('0 2=1',62,3,'var||a'.split('|'),0,{}))",
        "var a=1",
    );
    check(
        "function test (){alert ('This is a test!')}; eval(function(p,a,c,k,e,r){e=String;if(!''.replace(/^/,String)){while(c--)r[c]=k[c]||c;k=[function(e){return r[e]}];e=function(){return'\\w+'};c=1};while(c--)if(k[c])p=p.replace(new RegExp('\\b'+e(c)+'\\b','g'),k[c]);return p}('0 2=\\'{Íâ–+›ï;ã†Ù¥#\\'',3,3,'var||a'.split('|'),0,{}))",
        "function test (){alert ('This is a test!')}; var a='{Íâ–+›ï;ã†Ù¥#'",
    );
    check(
        "eval(function(p,a,c,k,e,d){e=function(c){return c.toString(36)};if(!''.replace(/^/,String)){while(c--){d[c.toString(a)]=k[c]||c.toString(a)}k=[function(e){return d[e]}];e=function(){return'\\w+'};c=1};while(c--){if(k[c]){p=p.replace(Regex('\\b'+e(c)+'\\b'),'g'),k[c])}}return p}('2 0=\"4 3!\";2 1=0.5(/b/6);a.9(\"8\").7=1;',12,12,'str|n|var|W3Schools|Visit|search|i|innerHTML|demo|getElementById|document|w3Schools'.split('|'),0,{}))",
        r#"var str="Visit W3Schools!";var n=str.search(/w3Schools/i);document.getElementById("demo").innerHTML=n;"#,
    );
    check(
        r"a=b;\r\nwhile(1){\ng=h;{return'\\w+'};break;eval(function(p,a,c,k,e,d){e=function(c){return c.toString(36)};if(!''.replace(/^/,String)){while(c--){d[c.toString(a)]=k[c]||c.toString(a)}k=[function(e){return d[e]}];e=function(){return'\\w+'};c=1};while(c--){if(k[c]){p=p.replace(new RegExp('\\b'+e(c)+'\\b','g'),k[c])}}return p}('$(5).4(3(){$('.1').0(2);$('.6').0(d);$('.7').0(b);$('.a').0(8);$('.9').0(c)});',14,14,'html|r5e57|8080|function|ready|document|r1655|rc15b|8888|r39b0|r6ae9|3128|65309|80'.split('|'),0,{}))c=abx;",
        r#"a=b;\r\nwhile(1){\ng=h;{return'\\w+'};break;$(document).ready(function(){$('.r5e57').html(8080);$('.r1655').html(80);$('.rc15b').html(3128);$('.r6ae9').html(8888);$('.r39b0').html(65309)});c=abx;"#,
    );
    check(
        "eval(function(p,a,c,k,e,r){e=function(c){return c.toString(36)};if('0'.replace(0,e)==0){while(c--)r[e(c)]=k[c];k=[function(e){return r[e]||e}];e=function(){return'[0-9ab]'};c=1};while(c--)if(k[c])p=p.replace(new RegExp('\\b'+e(c)+'\\b','g'),k[c]);return p}('$(5).a(6(){ $('.8').0(1); $('.b').0(4); $('.9').0(2); $('.7').0(3)})',[],12,'html|52136|555|65103|8088|document|function|r542c|r8ce6|rb0de|ready|rfab0'.split('|'),0,{}))",
        "$(document).ready(function(){ $('.r8ce6').html(52136); $('.rfab0').html(8088); $('.rb0de').html(555); $('.r542c').html(65103)})",
    );
}

const HEAD: &str = "eval(function(p,a,c,k,e,r){...}";

#[test]
fn detect_tolerates_spaces_and_tabs() {
    assert!(detect("x; eval  (  function ( p , a , c , k , e ,"));
    assert!(!detect("eval(function(p,a,c,k,e"));
    assert!(!detect("ev al(function(p,a,c,k,e,"));
    assert!(detect("eval(\tfunction(p,a,c,k,e,"));
    assert!(detect("eval\t \t(function(p,\ta,c,k,e ,"));
    assert!(!detect("eval(\nfunction(p,a,c,k,e,"));
    assert!(!detect("eval(func tion(p,a,c,k,e,"));
}

#[test]
fn unpack_explicit_radix() {
    let input = format!("{}('0 2=1',62,3,'var||a'.split('|'),0,{{}}))", HEAD);
    assert_eq!(unpack(&input).unwrap(), "var a=1");
}

#[test]
fn unpack_empty_brackets_mean_radix_62() {
    let input = format!("{}('0 2=1',[],3,'var||a'.split('|'),0,{{}}))", HEAD);
    assert_eq!(unpack(&input).unwrap(), "var a=1");
    let input = format!("{}('Z',[],62,'{}'.split('|'),0,{{}}))", HEAD, "x|".repeat(61) + "last");
    assert_eq!(unpack(&input).unwrap(), "last");
}

#[test]
fn unpack_simple_form_without_trailing_arguments() {
    let input = format!("{}('0 2=1',62,3,'var||a'.split('|')", HEAD);
    assert_eq!(unpack(&input).unwrap(), "var a=1");
}

#[test]
fn unpack_count_mismatch_names_both_numbers() {
    let input = format!("{}('0 1',62,3,'var|a'.split('|'),0,{{}}))", HEAD);
    assert_eq!(
        unpack(&input).unwrap_err(),
        "Malformed p.a.c.k.e.r. symtab. (3 != 2)"
    );
    let input = format!("{}('0 1',62,1,'var|a'.split('|'),0,{{}}))", HEAD);
    assert_eq!(
        unpack(&input).unwrap_err(),
        "Malformed p.a.c.k.e.r. symtab. (1 != 2)"
    );
}

#[test]
fn unpack_inlines_string_table() {
    let input = format!(
        "{}('0 1=[\"a\",\"b\"];2(1[3],1[4]);',62,5,'var|_0x1|f|0|1'.split('|'),0,{{}}))",
        HEAD
    );
    assert_eq!(unpack(&input).unwrap(), "f(\"a\",\"b\");");
}

#[test]
fn unpack_errors() {
    assert_eq!(unpack("var a = 1;").unwrap_err(), "Invalid p.a.c.k.e.r data.");
    assert_eq!(unpack("").unwrap_err(), "Invalid p.a.c.k.e.r data.");
    assert_eq!(
        unpack(&format!("{}(nothing here)", HEAD)).unwrap_err(),
        "Could not make sense of p.a.c.k.e.r data (unexpected code structure)"
    );
    assert_eq!(
        unpack(&format!("{}('0',99999999999999999999999,1,'a'.split('|'),0,{{}}))", HEAD)).unwrap_err(),
        "Invalid radix"
    );
    assert_eq!(
        unpack(&format!("{}('0',10,99999999999999999999999,'a'.split('|'),0,{{}}))", HEAD)).unwrap_err(),
        "Invalid count"
    );
    assert_eq!(
        unpack(&format!("{}('0',70,1,'a'.split('|'),0,{{}}))", HEAD)).unwrap_err(),
        "Unsupported base encoding."
    );
}

#[test]
fn unpack_unchecked_matches_unpack() {
    let input = format!("pre;{}('0 2=1',62,3,'var||a'.split('|'),0,{{}}))post", HEAD);
    assert_eq!(unpack_unchecked(&input).unwrap(), "pre;var a=1post");
    assert_eq!(unpack_unchecked(&input), unpack(&input));
    assert_eq!(unpack_unchecked("x").unwrap_err(), "Invalid p.a.c.k.e.r data.");
}

#[test]
fn unresolved_tokens_stay_as_they_are() {
    let input = format!("{}('0 1 2 3 zz _ 10',62,3,'var||a'.split('|'),0,{{}}))", HEAD);
    assert_eq!(unpack(&input).unwrap(), "var 1 a 3 zz _ 10");
}

#[test]
fn payload_escapes_are_undone() {
    let input = format!("{}('0=\\'\\\\\\'',62,1,'x'.split('|'),0,{{}}))", HEAD);
    assert_eq!(unpack(&input).unwrap(), "x='\\'");
}

#[test]
fn end_text_after_first_delimiter() {
    let input = format!("{}('0',62,1,'x'.split('|'),0,{{}}))tail')))more", HEAD);
    assert_eq!(unpack(&input).unwrap(), "xmore");
}

#[test]
fn unicode_letters_belong_to_words() {
    let input = format!("{}('é0 0é 0',62,1,'x'.split('|'),0,{{}}))", HEAD);
    assert_eq!(unpack(&input).unwrap(), "é0 0é x");
}

#[test]
fn numbers_that_are_not_digits_end_words() {
    let input = format!("{}('0\u{b2} 0\u{301} a\u{203f}0',62,1,'x'.split('|'),0,{{}}))", HEAD);
    assert_eq!(unpack(&input).unwrap(), "x\u{b2} 0\u{301} a\u{203f}0");
}

#[test]
fn non_ascii_digits_are_digits_that_do_not_parse() {
    assert_eq!(
        unpack(&format!("{}('0',\u{663},1,'a'.split('|'),0,{{}}))", HEAD)).unwrap_err(),
        "Invalid radix"
    );
    assert_eq!(
        unpack(&format!("{}('0',10,\u{661},'a'.split('|'),0,{{}}))", HEAD)).unwrap_err(),
        "Invalid count"
    );
}
