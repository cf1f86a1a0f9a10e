use docparse::comments::whiteout;

#[test]
fn test_whiteout() {
    let input = "something // with a comment\n";
    let expect = "something                  \n";
    assert_eq!(whiteout(input.as_bytes()).unwrap(), expect.as_bytes().to_vec());

    let input = "something /*comment \n in*/ middle\n";
    let expect = "something           \n      middle\n";
    assert_eq!(whiteout(input.as_bytes()).unwrap(), expect.as_bytes().to_vec());
}

#[test]
fn test_whiteout_comments() {
    let input = "something // with a comment\n";
    let expect = "something                  \n";
    assert_eq!(whiteout(input.as_bytes()).unwrap(), expect.as_bytes().to_vec());

    let input = "something /*comment \n in*/ middle\n";
    let expect = "something           \n      middle\n";
    assert_eq!(whiteout(input.as_bytes()).unwrap(), expect.as_bytes().to_vec());
}

#[test]
fn test_whiteout_empty() {
    assert_eq!(whiteout(b"").unwrap(), Vec::<u8>::new());
}

#[test]
fn test_whiteout_lone_slash_at_end() {
    assert_eq!(whiteout(b"x /").unwrap(), b"x /".to_vec());
}

#[test]
fn test_whiteout_slash_not_a_comment() {
    assert_eq!(whiteout(b"a / b / c").unwrap(), b"a / b / c".to_vec());
}

#[test]
fn test_whiteout_unterminated_block() {
    // An unterminated block comment is blanked through the end of input.
    assert_eq!(whiteout(b"x /* open\nnever closed").unwrap(), b"x        \n            ".to_vec());
}

#[test]
fn test_whiteout_block_needs_real_close() {
    // "/*/" does not close the comment it opens; everything after is inside.
    assert_eq!(whiteout(b"/*/ } */x").unwrap(), b"        x".to_vec());
}

#[test]
fn test_whiteout_adjacent_blocks() {
    assert_eq!(whiteout(b"a/**/b/**/c").unwrap(), b"a    b    c".to_vec());
}

#[test]
fn test_whiteout_length_preserved() {
    // Byte length is preserved, also for multi-byte characters inside
    // comments: each byte becomes one space.
    let input = "pre // caf\u{e9}\npost /* gr\u{fc}n */ end";
    let white = whiteout(input.as_bytes()).unwrap();
    assert_eq!(white.len(), input.len());
    let expect = "pre         \npost             end";
    assert_eq!(white, expect.as_bytes().to_vec());
}

#[test]
fn test_whiteout_newlines_preserved() {
    let input = b"a//x\nb/*y\nz*/c\n";
    let white = whiteout(input).unwrap();
    for i in 0..input.len() {
        assert_eq!(input[i] == b'\n', white[i] == b'\n');
    }
}

#[test]
fn test_whiteout_idempotent() {
    let input = b"code // line\nmore /* block } */ after\ntail";
    let once = whiteout(input).unwrap();
    let twice = whiteout(&once).unwrap();
    assert_eq!(once, twice);
}
