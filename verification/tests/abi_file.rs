use gpui_sys::abi_file::{
    choose_link_name, escape_mangling_component, mangled_callback_symbol, parse_abi, AbiFault,
    AbiFile, CallbackFault,
};

const FILE: &str = "# the interface\nabi_version = 4\r\n\n[events] # kinds\n  event_click=1\n\
[callback]\nname = \"dispatch_entry\"\nmodule = \"nakake/gpui-bindings\"\n\
params = [\"i32\", \"i32\", \"i32\", \"i32\", \"i32\"]\nreturn = \"i32\"\n";

fn parsed(text: &str) -> AbiFile {
    match parse_abi(text) {
        Ok(file) => file,
        Err(error) => panic!("line {}: {:?}", error.line, error.fault),
    }
}

fn fault(text: &str) -> (usize, AbiFault) {
    match parse_abi(text) {
        Ok(_) => panic!("accepted: {text}"),
        Err(error) => (error.line, error.fault),
    }
}

fn callback_fault(text: &str) -> CallbackFault {
    match parsed(text).callback() {
        Ok(_) => panic!("accepted: {text}"),
        Err(fault) => fault,
    }
}

#[test]
fn a_file_declares_constants_in_order() {
    let file = parsed(FILE);
    assert_eq!(
        file.constants,
        vec![("abi_version".to_string(), 4), ("event_click".to_string(), 1)]
    );
    assert_eq!(file.callback.len(), 4);
    assert_eq!(file.callback[0].0, "name");
    assert_eq!(file.callback[0].1, "\"dispatch_entry\"");
    assert!(parsed("").constants.is_empty());
}

#[test]
fn constants_are_written_in_capitals() {
    assert_eq!(
        parsed(FILE).constants_source(),
        "pub(crate) const ABI_VERSION: i32 = 4;\npub(crate) const EVENT_CLICK: i32 = 1;\n"
    );
    let file = AbiFile { constants: vec![("low".to_string(), i32::MIN)], callback: vec![] };
    assert_eq!(file.constants_source(), "pub(crate) const LOW: i32 = -2147483648;\n");
}

#[test]
fn the_first_faulty_line_is_named() {
    assert_eq!(fault("a = 1\n[]"), (2, AbiFault::Section));
    assert_eq!(fault("[1a]"), (1, AbiFault::Section));
    assert_eq!(fault("[ events ]"), (1, AbiFault::Section));
    assert_eq!(fault("\n\nabi_version"), (3, AbiFault::Assignment));
    assert_eq!(fault("["), (1, AbiFault::Assignment));
    assert_eq!(fault("a = # 1"), (1, AbiFault::NotANumber));
    assert_eq!(fault("1a = 1"), (1, AbiFault::Key));
    assert_eq!(fault(" = 1"), (1, AbiFault::Key));
    assert_eq!(fault("a-b = 1"), (1, AbiFault::Key));
    assert_eq!(fault("a = -1"), (1, AbiFault::NotANumber));
    assert_eq!(fault("a = 2147483648"), (1, AbiFault::TooLarge));
    assert_eq!(fault("a = 99999999999999999999999999"), (1, AbiFault::TooLarge));
    assert_eq!(fault("a = 1\nb\n[]\n"), (2, AbiFault::Assignment));
    assert_eq!(parsed("a = 2147483647").constants[0].1, i32::MAX);
    assert_eq!(parsed("a = 0007").constants[0].1, 7);
}

#[test]
fn blanks_of_every_kind_are_trimmed() {
    assert_eq!(parsed("\u{3000}a\t=\u{a0}1\u{2003}").constants, vec![("a".to_string(), 1)]);
}

#[test]
fn the_callback_is_read() {
    let callback = match parsed(FILE).callback() {
        Ok(callback) => callback,
        Err(fault) => panic!("{fault:?}"),
    };
    assert_eq!(callback.name, "dispatch_entry");
    assert_eq!(callback.module, "nakake/gpui-bindings");
}

#[test]
fn the_last_assignment_counts() {
    let text = format!("{FILE}name = \"other\"\n");
    match parsed(&text).callback() {
        Ok(callback) => assert_eq!(callback.name, "other"),
        Err(fault) => panic!("{fault:?}"),
    }
}

#[test]
fn a_faulty_callback_is_refused() {
    let head = "[callback]\nname = n\nmodule = m\n";
    let five = "params = [\"i32\",i32, \"i32\" ,i32,i32]\n";
    assert_eq!(callback_fault(""), CallbackFault::MissingName);
    assert_eq!(callback_fault("[callback]\nname = n\n"), CallbackFault::MissingModule);
    assert_eq!(callback_fault(head), CallbackFault::MissingParams);
    assert_eq!(
        callback_fault(&format!("{head}params = [i32, i32]\n")),
        CallbackFault::WrongParams
    );
    assert_eq!(
        callback_fault(&format!("{head}params = [i32, i32, i32, i32, i64]\n")),
        CallbackFault::WrongParams
    );
    assert_eq!(callback_fault(&format!("{head}{five}")), CallbackFault::MissingReturn);
    assert_eq!(
        callback_fault(&format!("{head}{five}return = \"i64\"\n")),
        CallbackFault::WrongReturn
    );
    assert!(parsed(&format!("{head}{five}return = i32\n")).callback().is_ok());
}

#[test]
fn symbols_are_mangled() {
    assert_eq!(
        mangled_callback_symbol("nakake/gpui-bindings", "dispatch_entry"),
        "_M0FP26nakake15gpui_2dbindings15dispatch__entry"
    );
    assert_eq!(mangled_callback_symbol("", "f"), "_M0FP101f");
    assert_eq!(mangled_callback_symbol("\u{e9}", "f"), "_M0FP12\u{e9}1f");
}

#[test]
fn escaping_keeps_texts_apart() {
    assert_eq!(escape_mangling_component("a_b-c"), "a__b_2dc");
    assert_eq!(escape_mangling_component("-"), "_2d");
    assert_eq!(escape_mangling_component("_2d"), "__2d");
    assert_eq!(escape_mangling_component(""), "");
}

#[test]
fn a_found_symbol_goes_before_the_computed_one() {
    let chosen = choose_link_name("computed".to_string(), " \n");
    assert_eq!(chosen.symbol, "computed");
    assert!(!chosen.disagrees);
    let chosen = choose_link_name("computed".to_string(), "found\n");
    assert_eq!(chosen.symbol, "found");
    assert!(chosen.disagrees);
    let chosen = choose_link_name("same".to_string(), " same ");
    assert_eq!(chosen.symbol, "same");
    assert!(!chosen.disagrees);
}

#[test]
fn white_space_is_taken_off_in_all_its_forms() {
    let blanks = "\t\u{b}\u{c} \u{85}\u{a0}\u{1680}\u{2000}\u{200a}\u{2028}\u{2029}\u{202f}\u{205f}\u{3000}";
    let file = parsed(&format!("{blanks}abi_version{blanks}={blanks}4{blanks}\n"));
    assert_eq!(file.constants, vec![("abi_version".to_string(), 4)]);
    assert!(parse_abi("abi_version = 4\u{200b}\n").is_err());
}
