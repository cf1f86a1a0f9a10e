use docparse::parse::get_code_blocks;
use docparse::types::CodeTypes;
use docparse::types::ParseError;

const TEST_TEXT: &str = "
//! file level documentation
//! more file documentation

/// documentation for my function
/// some more docs
fn myfun(x: i32, y:i64) -> u32 {
    // here are some comments inside the function
    let x = 4;
    if x == 7 {
        println!(\"what the heck is happening?\");
    }
    {{{}}} // just to cause problems
    // end myfun
}

some stuff after the function

/// documentation for myenum
enum myenum {
    x,
    y,
    z,
    // end myenum
}

/// documentation for std struct
struct mystruct {
    x: i32,
    y: f32,
    // end mystruct
}

/// documentation for tuple struct
struct tuplestruct(u32, f64
    // end tuplestruct
)

/// documentation for nullstruct
struct nullstruct /*some terrible documentation;*/ /*end nullstruct*/ ;

/// documentation for mymod
/// some more mod documentation
mod mymod {
    fn myfun2(x: i32, y: f64) -> f64 {
        // here are some comments inside myfun
        if x == 7 {
            println!(\"what the heck is x\");
        }
        // a comment
        /* terrible block comment }*/
        // terrible } line comment
        // end myfun2
    }
    // some more comments
    // end mymod
}

some stuff after mod

";

#[test]
fn test_parse_blocks() {
    let text = TEST_TEXT.as_bytes();
    let blocks = get_code_blocks(text).unwrap();
    let mut n = 0;

    let block = &blocks[n];
    assert_eq!(block.name, b"myfun".to_vec());
    match block.kind {
        CodeTypes::Fn => {}
        _ => assert!(false),
    }
    assert_eq!(block.sig, b"fn myfun(x: i32, y:i64) -> u32".to_vec());
    assert!(text[block.pos.0..].starts_with(b"fn myfun"));
    assert!(text[..block.pos.1].ends_with(b" // end myfun\n}"));

    n += 1;
    let block = &blocks[n];
    assert_eq!(block.name, b"myenum".to_vec());
    match block.kind {
        CodeTypes::Enum => {}
        _ => assert!(false),
    }
    assert_eq!(block.sig, b"enum myenum".to_vec());
    assert!(text[block.pos.0..].starts_with(b"enum myenum"));
    assert!(text[..block.pos.1].ends_with(b" // end myenum\n}"));

    n += 1;
    let block = &blocks[n];
    assert_eq!(block.name, b"mystruct".to_vec());
    match block.kind {
        CodeTypes::Struct => {}
        _ => assert!(false),
    }
    assert_eq!(block.sig, b"struct mystruct".to_vec());
    assert!(text[block.pos.0..].starts_with(b"struct mystruct"));
    assert!(text[..block.pos.1].ends_with(b" // end mystruct\n}"));

    n += 1;
    let block = &blocks[n];
    assert_eq!(block.name, b"tuplestruct".to_vec());
    match block.kind {
        CodeTypes::Struct => {}
        _ => assert!(false),
    }
    assert_eq!(block.sig, b"struct tuplestruct".to_vec());
    assert!(text[block.pos.0..].starts_with(b"struct tuplestruct"));
    assert!(text[..block.pos.1].ends_with(b" // end tuplestruct\n)"));

    n += 1;
    let block = &blocks[n];
    assert_eq!(block.name, b"nullstruct".to_vec());
    match block.kind {
        CodeTypes::Struct => {}
        _ => assert!(false),
    }
    assert_eq!(
        block.sig,
        b"struct nullstruct /*some terrible documentation;*/ /*end nullstruct*/".to_vec()
    );
    assert!(text[block.pos.0..].starts_with(b"struct nullstruct"));
    assert!(text[..block.pos.1].ends_with(b" /*end nullstruct*/ ;"));

    n += 1;
    let block = &blocks[n];
    assert_eq!(block.name, b"mymod".to_vec());
    match block.kind {
        CodeTypes::Mod => {}
        _ => assert!(false),
    }
    assert_eq!(block.sig, b"mod mymod".to_vec());
    assert!(text[block.pos.0..].starts_with(b"mod mymod"));
    assert!(text[..block.pos.1].ends_with(b" // end mymod\n}"));
}

#[test]
fn parse_test_get_code_blocks() {
    let text = TEST_TEXT.as_bytes();
    let blocks = get_code_blocks(text).unwrap();
    let mut n = 0;

    let block = &blocks[n];
    assert_eq!(block.name, b"myfun".to_vec());
    match block.kind {
        CodeTypes::Fn => {}
        _ => assert!(false),
    }
    assert_eq!(block.sig, b"fn myfun(x: i32, y:i64) -> u32".to_vec());
    assert!(text[block.pos.0..].starts_with(b"fn myfun"));
    assert!(text[..block.pos.1].ends_with(b" // end myfun\n}"));

    n += 1;
    let block = &blocks[n];
    assert_eq!(block.name, b"myenum".to_vec());
    match block.kind {
        CodeTypes::Enum => {}
        _ => assert!(false),
    }
    assert_eq!(block.sig, b"enum myenum".to_vec());
    assert!(text[block.pos.0..].starts_with(b"enum myenum"));
    assert!(text[..block.pos.1].ends_with(b" // end myenum\n}"));

    n += 1;
    let block = &blocks[n];
    assert_eq!(block.name, b"mystruct".to_vec());
    match block.kind {
        CodeTypes::Struct => {}
        _ => assert!(false),
    }
    assert_eq!(block.sig, b"struct mystruct".to_vec());
    assert!(text[block.pos.0..].starts_with(b"struct mystruct"));
    assert!(text[..block.pos.1].ends_with(b" // end mystruct\n}"));

    n += 1;
    let block = &blocks[n];
    assert_eq!(block.name, b"tuplestruct".to_vec());
    match block.kind {
        CodeTypes::Struct => {}
        _ => assert!(false),
    }
    assert_eq!(block.sig, b"struct tuplestruct".to_vec());
    assert!(text[block.pos.0..].starts_with(b"struct tuplestruct"));
    assert!(text[..block.pos.1].ends_with(b" // end tuplestruct\n)"));

    n += 1;
    let block = &blocks[n];
    assert_eq!(block.name, b"nullstruct".to_vec());
    match block.kind {
        CodeTypes::Struct => {}
        _ => assert!(false),
    }
    assert_eq!(
        block.sig,
        b"struct nullstruct /*some terrible documentation;*/ /*end nullstruct*/".to_vec()
    );
    assert!(text[block.pos.0..].starts_with(b"struct nullstruct"));
    assert!(text[..block.pos.1].ends_with(b" /*end nullstruct*/ ;"));

    n += 1;
    let block = &blocks[n];
    assert_eq!(block.name, b"mymod".to_vec());
    match block.kind {
        CodeTypes::Mod => {}
        _ => assert!(false),
    }
    assert_eq!(block.sig, b"mod mymod".to_vec());
    assert!(text[block.pos.0..].starts_with(b"mod mymod"));
    assert!(text[..block.pos.1].ends_with(b" // end mymod\n}"));
}

#[test]
fn test_parse_test_get_code_blocks() {
    let text = TEST_TEXT.as_bytes();
    let blocks = get_code_blocks(text).unwrap();
    let mut n = 0;

    let block = &blocks[n];
    assert_eq!(block.name, b"myfun".to_vec());
    match block.kind {
        CodeTypes::Fn => {}
        _ => assert!(false),
    }
    assert_eq!(block.sig, b"fn myfun(x: i32, y:i64) -> u32".to_vec());
    assert!(text[block.pos.0..].starts_with(b"fn myfun"));
    assert!(text[..block.pos.1].ends_with(b" // end myfun\n}"));

    n += 1;
    let block = &blocks[n];
    assert_eq!(block.name, b"myenum".to_vec());
    match block.kind {
        CodeTypes::Enum => {}
        _ => assert!(false),
    }
    assert_eq!(block.sig, b"enum myenum".to_vec());
    assert!(text[block.pos.0..].starts_with(b"enum myenum"));
    assert!(text[..block.pos.1].ends_with(b" // end myenum\n}"));

    n += 1;
    let block = &blocks[n];
    assert_eq!(block.name, b"mystruct".to_vec());
    match block.kind {
        CodeTypes::Struct => {}
        _ => assert!(false),
    }
    assert_eq!(block.sig, b"struct mystruct".to_vec());
    assert!(text[block.pos.0..].starts_with(b"struct mystruct"));
    assert!(text[..block.pos.1].ends_with(b" // end mystruct\n}"));

    n += 1;
    let block = &blocks[n];
    assert_eq!(block.name, b"tuplestruct".to_vec());
    match block.kind {
        CodeTypes::Struct => {}
        _ => assert!(false),
    }
    assert_eq!(block.sig, b"struct tuplestruct".to_vec());
    assert!(text[block.pos.0..].starts_with(b"struct tuplestruct"));
    assert!(text[..block.pos.1].ends_with(b" // end tuplestruct\n)"));

    n += 1;
    let block = &blocks[n];
    assert_eq!(block.name, b"nullstruct".to_vec());
    match block.kind {
        CodeTypes::Struct => {}
        _ => assert!(false),
    }
    assert_eq!(
        block.sig,
        b"struct nullstruct /*some terrible documentation;*/ /*end nullstruct*/".to_vec()
    );
    assert!(text[block.pos.0..].starts_with(b"struct nullstruct"));
    assert!(text[..block.pos.1].ends_with(b" /*end nullstruct*/ ;"));

    n += 1;
    let block = &blocks[n];
    assert_eq!(block.name, b"mymod".to_vec());
    match block.kind {
        CodeTypes::Mod => {}
        _ => assert!(false),
    }
    assert_eq!(block.sig, b"mod mymod".to_vec());
    assert!(text[block.pos.0..].starts_with(b"mod mymod"));
    assert!(text[..block.pos.1].ends_with(b" // end mymod\n}"));
}

#[test]
fn test_single_function_block() {
    let text = "fn myfun(x: i32, y:i64) -> u32 {\n ...\n}".as_bytes();
    let blocks = get_code_blocks(text).unwrap();
    assert_eq!(blocks.len(), 1);
    assert_eq!(blocks[0].name, b"myfun".to_vec());
    assert!(matches!(blocks[0].kind, CodeTypes::Fn));
    assert_eq!(blocks[0].sig, b"fn myfun(x: i32, y:i64) -> u32".to_vec());
    assert_eq!(blocks[0].pos, (0, text.len()));
}

#[test]
fn test_tuple_struct_block() {
    let text = "struct tuplestruct(u32, f64\n)".as_bytes();
    let blocks = get_code_blocks(text).unwrap();
    assert_eq!(blocks.len(), 1);
    assert_eq!(blocks[0].name, b"tuplestruct".to_vec());
    assert!(matches!(blocks[0].kind, CodeTypes::Struct));
    assert_eq!(blocks[0].sig, b"struct tuplestruct".to_vec());
    assert_eq!(blocks[0].pos, (0, text.len()));
}

#[test]
fn test_unit_struct_block_keeps_comments_in_sig() {
    // Neutralization only drives the matching; the signature is sliced from
    // the original text, comments and all.
    let text = "struct nullstruct /*doc*/ /*doc2*/;".as_bytes();
    let blocks = get_code_blocks(text).unwrap();
    assert_eq!(blocks.len(), 1);
    assert!(matches!(blocks[0].kind, CodeTypes::Struct));
    assert_eq!(blocks[0].sig, b"struct nullstruct /*doc*/ /*doc2*/".to_vec());
    assert_eq!(blocks[0].pos, (0, text.len()));
}

#[test]
fn test_nested_function_inside_module() {
    let text = "mod outer {\n    fn inner() -> u32 {\n        1\n    }\n}".as_bytes();
    let blocks = get_code_blocks(text).unwrap();
    assert_eq!(blocks.len(), 2);
    assert_eq!(blocks[0].name, b"outer".to_vec());
    assert!(matches!(blocks[0].kind, CodeTypes::Mod));
    assert_eq!(blocks[1].name, b"inner".to_vec());
    assert!(matches!(blocks[1].kind, CodeTypes::Fn));
    // The inner function's span lies fully inside the module's span.
    assert!(blocks[0].pos.0 < blocks[1].pos.0);
    assert!(blocks[1].pos.1 < blocks[0].pos.1);
    assert_eq!(blocks[0].pos, (0, text.len()));
}

#[test]
fn test_trait_block() {
    let text = "trait mytrait {\n    fn item(&self);\n}".as_bytes();
    let blocks = get_code_blocks(text).unwrap();
    assert_eq!(blocks.len(), 1);
    assert_eq!(blocks[0].name, b"mytrait".to_vec());
    assert!(matches!(blocks[0].kind, CodeTypes::Trait));
    assert_eq!(blocks[0].sig, b"trait mytrait".to_vec());
}

#[test]
fn test_unbalanced_body_is_fatal() {
    let text = "fn broken() {\n    {\n}\n".as_bytes();
    assert!(matches!(get_code_blocks(text), Err(ParseError::Unbalanced)));
}

#[test]
fn test_no_blocks_in_plain_text() {
    let text = "nothing to see here\njust prose\n".as_bytes();
    let blocks = get_code_blocks(text).unwrap();
    assert_eq!(blocks.len(), 0);
}

#[test]
fn test_empty_input() {
    let blocks = get_code_blocks(b"").unwrap();
    assert_eq!(blocks.len(), 0);
}

#[test]
fn test_keyword_must_be_anchored() {
    // A keyword in the middle of a line is not a header.
    let text = "let myfn = fn notfound() {}\nfn found() {}\n".as_bytes();
    let blocks = get_code_blocks(text).unwrap();
    assert_eq!(blocks.len(), 1);
    assert_eq!(blocks[0].name, b"found".to_vec());
}

#[test]
fn test_delimiters_in_comments_do_not_close_blocks() {
    let with_comment = "fn f() {\n    // pretend close }\n    /* and one more } */\n}".as_bytes();
    let blocks = get_code_blocks(with_comment).unwrap();
    assert_eq!(blocks.len(), 1);
    assert_eq!(blocks[0].pos, (0, with_comment.len()));
}

#[test]
fn test_header_may_span_lines_before_identifier() {
    // Whitespace between keyword and identifier may include newlines; the
    // opening delimiter must then sit on the identifier's line.
    let text = "struct\n  spread {\n}".as_bytes();
    let blocks = get_code_blocks(text).unwrap();
    assert_eq!(blocks.len(), 1);
    assert_eq!(blocks[0].name, b"spread".to_vec());
    assert!(matches!(blocks[0].kind, CodeTypes::Struct));
    assert_eq!(blocks[0].pos, (0, text.len()));
}

#[test]
fn test_open_delimiter_must_share_identifier_line() {
    // With the brace on its own line the body pattern finds no header.
    let text = "fn lonely()\n{\n}\n".as_bytes();
    let blocks = get_code_blocks(text).unwrap();
    assert_eq!(blocks.len(), 0);
}

#[test]
fn test_generic_bracket_before_identifier() {
    // The header shape places an optional generic bracket between the
    // keyword and the identifier.
    let text = "fn <T> generic_fn(x: T) {\n}".as_bytes();
    let blocks = get_code_blocks(text).unwrap();
    assert_eq!(blocks.len(), 1);
    assert_eq!(blocks[0].name, b"generic_fn".to_vec());
    assert!(matches!(blocks[0].kind, CodeTypes::Fn));
    assert_eq!(blocks[0].pos, (0, text.len()));
}

#[test]
fn test_blocks_sorted_by_start() {
    let text = "struct a {\n}\nstruct b(u32\n)\nstruct c;\nfn d() {\n}\n".as_bytes();
    let blocks = get_code_blocks(text).unwrap();
    assert_eq!(blocks.len(), 4);
    for i in 1..blocks.len() {
        assert!(blocks[i - 1].pos.0 <= blocks[i].pos.0);
    }
    assert_eq!(blocks[0].name, b"a".to_vec());
    assert_eq!(blocks[1].name, b"b".to_vec());
    assert_eq!(blocks[2].name, b"c".to_vec());
    assert_eq!(blocks[3].name, b"d".to_vec());
}
