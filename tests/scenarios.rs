use gpm_in_rust::{Cell, ControlChars, GpmVm, Pc};

fn machine() -> GpmVm {
    let control_chars = ControlChars { def: '&' as Cell, ..ControlChars::default() };
    GpmVm::new(control_chars, 50_000)
}

#[test]
fn default_warning_characters() {
    let cc = ControlChars::default();
    assert_eq!(cc.open, '<' as Cell);
    assert_eq!(cc.close, '>' as Cell);
    assert_eq!(cc.def, 0xa7);
    assert_eq!(cc.arg_sep, ',' as Cell);
    assert_eq!(cc.apply, ';' as Cell);
    assert_eq!(cc.load_arg, '~' as Cell);
}

#[test]
fn define_and_call_identity() {
    let mut vm = machine();
    assert_eq!(vm.run("&DEF,id,<~1>;&id,hello;"), "hello");
}

#[test]
fn define_arithmetic_macro_and_call() {
    let mut vm = machine();
    assert_eq!(vm.run("&DEF,Suc,<&1,2,3,4,5,6,7,8,9,10,&DEF,1,<~>~1;;>;&Suc,7;"), "8");
}

#[test]
fn undefined_name_is_reported() {
    let mut vm = machine();
    let out = vm.run("&nope;");
    assert!(out.contains("MONITOR: Undefined name nope"), "{:?}", out);
}

#[test]
fn quoted_warning_characters_pass_through() {
    let mut vm = machine();
    assert_eq!(vm.run("<&DEF,x,<~1>;>"), "&DEF,x,<~1>;");
}

#[test]
fn bin_then_dec_round_trip() {
    let mut vm = machine();
    assert_eq!(vm.run("&DEC,&BIN,42;;"), "42");
}

#[test]
fn bin_then_dec_negative() {
    let mut vm = machine();
    assert_eq!(vm.run("&DEC,&BIN,-305;;"), "-305");
}

#[test]
fn bar_arithmetic() {
    let mut vm = machine();
    assert_eq!(vm.run("&DEC,&BAR,+,&BIN,2;,&BIN,3;;;"), "5");
    assert_eq!(vm.run("&DEC,&BAR,-,&BIN,2;,&BIN,3;;;"), "-1");
    assert_eq!(vm.run("&DEC,&BAR,x,&BIN,6;,&BIN,7;;;"), "42");
    assert_eq!(vm.run("&DEC,&BAR,/,&BIN,17;,&BIN,5;;;"), "3");
    assert_eq!(vm.run("&DEC,&BAR,R,&BIN,17;,&BIN,5;;;"), "2");
}

#[test]
fn bar_division_by_zero_is_fatal() {
    let mut vm = machine();
    let out = vm.run("&DEC,&BAR,/,&BIN,1;,&BIN,0;;;");
    assert!(out.contains("Current macros are"), "{:?}", out);
}

#[test]
fn bin_non_digit_is_reported() {
    let mut vm = machine();
    let out = vm.run("&BIN,4x;");
    assert!(out.contains("MONITOR: Non-digit in number"), "{:?}", out);
}

#[test]
fn val_replays_a_definition() {
    let mut vm = machine();
    assert_eq!(vm.run("&DEF,greeting,hi there;&VAL,greeting;"), "hi there");
}

#[test]
fn update_overwrites_a_definition() {
    let mut vm = machine();
    assert_eq!(vm.run("&DEF,v,abc;&UPDATE,v,xy;&VAL,v;"), "xy");
}

#[test]
fn update_too_long_is_reported() {
    let mut vm = machine();
    let out = vm.run("&DEF,v,ab;&UPDATE,v,xyz;");
    assert!(out.contains("MONITOR: Update argument too long for "), "{:?}", out);
}

#[test]
fn missing_argument_is_reported() {
    let mut vm = machine();
    let out = vm.run("&DEF,two,<~2>;&two,a;");
    assert!(out.contains("MONITOR: No argument 2"), "{:?}", out);
}

#[test]
fn unmatched_close_is_reported() {
    let mut vm = machine();
    let out = vm.run("&DEF,x,<a>>;&x;");
    assert!(out.contains("MONITOR: Unmatched >."), "{:?}", out);
}

#[test]
fn plain_text_is_copied() {
    let mut vm = machine();
    assert_eq!(vm.run("Ala ma kota, zolw; psa"), "Ala ma kota, zolw; psa");
    assert_eq!(vm.run("zażółć gęślą jaźń"), "zażółć gęślą jaźń");
}

#[test]
fn quoting_strips_one_level() {
    let mut vm = machine();
    assert_eq!(vm.run("<a<b>c>"), "a<b>c");
}

#[test]
fn quote_split_across_chunks() {
    let mut vm = machine();
    assert_eq!(vm.run("<a&b"), "a&b");
    assert_eq!(vm.run(";c>d"), ";cd");
}

#[test]
fn chunking_keeps_output() {
    let whole = "&DEF,id,<~1>;&id,hello;&id,<x,y>;";
    let mut one = machine();
    let all = one.run(whole);
    for cut in 0..whole.len() {
        if !whole.is_char_boundary(cut) {
            continue;
        }
        let mut two = machine();
        let mut out = two.run(&whole[..cut]);
        out.push_str(&two.run(&whole[cut..]));
        assert_eq!(out, all, "cut at {}", cut);
    }
    assert_eq!(all, "hellox,y");
}

#[test]
fn end_twice_gives_nothing() {
    let mut vm = machine();
    assert_eq!(vm.run("abc>"), "abc");
    assert_eq!(vm.end(), "");
    assert_eq!(vm.end(), "");
}

#[test]
fn finish_then_resume() {
    let mut vm = machine();
    assert_eq!(vm.run("x>y"), "x");
    assert_eq!(vm.run("z"), "yz");
}

#[test]
fn labels_compare() {
    assert_eq!(Pc::Monitor(7), Pc::Monitor(7));
    assert_ne!(Pc::Start, Pc::Finish);
}

#[test]
fn semicolon_in_definition_is_reported() {
    let mut vm = machine();
    let out = vm.run("&DEF,x,<a;>;&DEF,f,<~1>;&f,&x;;");
    assert!(out.contains("MONITOR: Unmatched semicolon in definition of x"), "{:?}", out);
}

#[test]
fn tilde_outside_any_call_is_copied() {
    let mut vm = machine();
    assert_eq!(vm.run("&DEF,f,<~1>;&f,~1;"), "~1");
}

#[test]
fn impossible_argument_number_is_reported() {
    let mut vm = machine();
    let out = vm.run("&DEF,x,<~!>;&x;");
    assert!(out.contains("Impossible argument number in definition of x"), "{:?}", out);
}

#[test]
fn terminator_in_argument_list_is_reported() {
    let mut vm = machine();
    let out = vm.run("&DEF,x,<&VAL,a>;&DEF,a,b;&x;");
    assert!(out.contains("MONITOR: Terminator in argument list for "), "{:?}", out);
}

#[test]
fn argument_reference_split_across_chunks() {
    let mut vm = machine();
    assert_eq!(vm.run("&DEF,id,<~1>;&id,ok;"), "ok");
    assert_eq!(vm.run("&DEF,two,<~"), "");
    assert_eq!(vm.run("2>;&two,a,b;"), "b");
}

#[test]
fn small_store_overflow_is_fatal() {
    let control_chars = ControlChars { def: '&' as Cell, ..ControlChars::default() };
    let mut vm = GpmVm::new(control_chars, 45);
    let out = vm.run("&DEF,long,abcdefghijklmnop;");
    assert!(out.contains("Current macros are"), "{:?}", out);
}

#[test]
fn top_level_text_drops_outer_quotes_only() {
    let mut vm = machine();
    assert_eq!(vm.run("x<y,<z>>w;~"), "xy,<z>w;~");
}

#[test]
fn chunk_ending_inside_quotes_resumes_there() {
    let mut vm = machine();
    assert_eq!(vm.run("a<b<"), "ab<");
    assert_eq!(vm.run("&c>"), "&c>");
    assert_eq!(vm.run(">d"), "d");
}
