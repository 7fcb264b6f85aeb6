use sarascript::error::ParseError;
use sarascript::script::{Arg, Opcode, SaraParser, Script};

#[test]
fn spans_cover_markers_and_calls() {
    let text = b"AB<script type=\"sarascript\">get(\"http://h/p\")</script>CD".to_vec();
    let ops = SaraParser::parse(&text).expect("document must parse");
    assert_eq!(ops.len(), 3);
    assert!(matches!(ops[0].opcode, Opcode::TAG));
    assert!(matches!(ops[1].opcode, Opcode::GET));
    assert!(matches!(ops[2].opcode, Opcode::TAG));
    // The opening marker's span.
    assert_eq!(ops[0].span, 2..28);
    // The call's exact source text.
    assert_eq!(&text[ops[1].span.clone()], b"get(\"http://h/p\")");
    // The closing marker's span ends before the trailing text.
    assert_eq!(&text[ops[2].span.clone()], b"</script>");
    // The fetch argument is the string literal's inner bytes.
    assert_eq!(ops[1].args.len(), 1);
    match &ops[1].args[0] {
        Arg::String(s) => assert_eq!(s, &b"http://h/p".to_vec()),
        _ => panic!("expected a string argument"),
    }
}

#[test]
fn no_marker_yields_no_operations() {
    let ops = SaraParser::parse(&b"plain text, nothing else".to_vec()).expect("must parse");
    assert!(ops.is_empty());
    let ops = SaraParser::parse(&Vec::new()).expect("empty document must parse");
    assert!(ops.is_empty());
}

#[test]
fn missing_type_marker_is_rejected() {
    let text = b"<script foo=\"bar\">get(\"http://h/p\")</script>".to_vec();
    assert_eq!(
        SaraParser::parse(&text).unwrap_err(),
        ParseError::WrongScriptType
    );
    let text = b"<script>get(\"http://h/p\")</script>".to_vec();
    assert_eq!(
        SaraParser::parse(&text).unwrap_err(),
        ParseError::WrongScriptType
    );
}

#[test]
fn wrong_type_value_is_rejected() {
    let text = b"<script type=\"javascript\">get(\"http://h/p\")</script>".to_vec();
    assert_eq!(
        SaraParser::parse(&text).unwrap_err(),
        ParseError::WrongScriptType
    );
}

#[test]
fn unknown_directive_is_rejected() {
    let text = b"<script type=\"sarascript\">frob(\"x\")</script>".to_vec();
    assert_eq!(
        SaraParser::parse(&text).unwrap_err(),
        ParseError::UnknownDirective
    );
}

#[test]
fn bad_arguments_are_rejected() {
    let no_args = b"<script type=\"sarascript\">get()</script>".to_vec();
    assert_eq!(SaraParser::parse(&no_args).unwrap_err(), ParseError::BadArgument);
    let two_args = b"<script type=\"sarascript\">get(\"a\", \"b\")</script>".to_vec();
    assert_eq!(SaraParser::parse(&two_args).unwrap_err(), ParseError::BadArgument);
    let num_arg = b"<script type=\"sarascript\">get(5)</script>".to_vec();
    assert_eq!(SaraParser::parse(&num_arg).unwrap_err(), ParseError::BadArgument);
}

#[test]
fn symbol_argument_is_accepted() {
    let text = b"<script type=\"sarascript\">get(backend)</script>".to_vec();
    let ops = SaraParser::parse(&text).expect("symbol argument must parse");
    assert_eq!(ops.len(), 3);
    match &ops[1].args[0] {
        Arg::Symbol(s) => assert_eq!(s, &b"backend".to_vec()),
        _ => panic!("expected a symbol argument"),
    }
}

#[test]
fn unterminated_block_is_rejected() {
    let text = b"<script type=\"sarascript\">get(\"http://h/p\")".to_vec();
    assert_eq!(
        SaraParser::parse(&text).unwrap_err(),
        ParseError::UnterminatedBlock
    );
}

#[test]
fn unclosed_opening_marker_is_rejected() {
    let text = b"<script type=\"sarascript\" get(\"http://h/p\")</script>".to_vec();
    assert_eq!(SaraParser::parse(&text).unwrap_err(), ParseError::MalformedTag);
}

#[test]
fn two_blocks_parse_in_order() {
    let text = b"x<script type=\"sarascript\">get(\"http://a/\")</script>y<script type=\"sarascript\">get(\"http://b/\")</script>z"
        .to_vec();
    let ops = SaraParser::parse(&text).expect("both blocks must parse");
    assert_eq!(ops.len(), 6);
    for w in ops.windows(2) {
        assert!(w[0].span.end <= w[1].span.start);
    }
}

#[test]
fn script_validity() {
    let mut script = Script::uninit();
    assert!(!script.is_okay());
    script.is_type_correct = true;
    assert!(script.is_okay());
    script.operations.push(sarascript::script::Operation {
        opcode: Opcode::ERR,
        span: 0..1,
        args: Vec::new(),
    });
    assert!(!script.is_okay());
}

#[test]
fn argument_accessors() {
    let s = Arg::String(b"text".to_vec());
    assert_eq!(s.into_inner_string(), b"text".to_vec());
    let n = Arg::Num(-42);
    assert_eq!(n.into_inner_num(), -42);
    let y = Arg::Symbol(b"name".to_vec());
    assert_eq!(y.into_inner_symbol(), b"name".to_vec());
}
