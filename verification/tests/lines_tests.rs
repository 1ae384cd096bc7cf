use figma_net_ok::lines::join_lines;
use figma_net_ok::lines::marker_line;
use figma_net_ok::lines::second_token;
use figma_net_ok::lines::split_lines;

fn b(s: &str) -> Vec<u8> {
    s.as_bytes().to_vec()
}

#[test]
fn split_drops_newlines_and_final_fragment_stays() {
    assert_eq!(
        split_lines(&b("127.0.0.1 localhost\n::1 localhost\n")),
        vec![b("127.0.0.1 localhost"), b("::1 localhost")]
    );
    assert_eq!(split_lines(&b("a\nb")), vec![b("a"), b("b")]);
    assert_eq!(split_lines(&b("")), Vec::<Vec<u8>>::new());
    assert_eq!(split_lines(&b("\n")), vec![b("")]);
}

#[test]
fn split_strips_carriage_return_before_newline() {
    assert_eq!(split_lines(&b("a\r\nb\r\n")), vec![b("a"), b("b")]);
    assert_eq!(split_lines(&b("a\r")), vec![b("a\r")]);
}

#[test]
fn join_appends_one_newline_per_line() {
    assert_eq!(join_lines(&vec![b("a"), b("b")]), b("a\nb\n"));
    assert_eq!(join_lines(&vec![b("only")]), b("only\n"));
    assert_eq!(join_lines(&Vec::new()), b("\n"));
}

#[test]
fn split_then_join_restores_newline_terminated_content() {
    let content = b("127.0.0.1 localhost\n# set by figma net ok\n1.2.3.4 example.com\n");
    assert_eq!(join_lines(&split_lines(&content)), content);
}

#[test]
fn second_token_is_the_significant_hostname() {
    assert_eq!(second_token(&b("192.168.0.1 myrouter")), Some(b("myrouter")));
    assert_eq!(second_token(&b("  192.168.0.1 \t myrouter alias")), Some(b("myrouter")));
    assert_eq!(second_token(&b("loneword")), None);
    assert_eq!(second_token(&b("")), None);
    assert_eq!(second_token(&b("   ")), None);
}

#[test]
fn marker_line_is_the_reserved_comment() {
    assert_eq!(marker_line(), b("# set by figma net ok"));
}
