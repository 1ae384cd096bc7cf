//! Lines of the hosts file, modelled as byte vectors.
//!
//! A logical line is a comment (first byte `#`), a blank line (spaces and
//! tabs only), or a mapping line: an IP token followed by one or more
//! hostname tokens, separated by spaces or tabs. Only the first hostname
//! token of a mapping line is significant for lookups and removals. One
//! reserved comment line, the ownership marker, delimits the entries this
//! tool manages.

use vstd::prelude::*;

verus! {

/// A byte vector viewed in depth is just its sequence of bytes.
pub broadcast proof fn lemma_bytes_deep_view(v: Vec<u8>)
    ensures
        #[trigger] v.deep_view() == v@,
{
    assert(v.deep_view() =~= v@);
}

/// The token separators of a hosts line: space and horizontal tab.
pub open spec fn is_space(b: u8) -> bool {
    b == 32 || b == 9
}

/// The ownership marker comment, `# set by figma net ok`, as bytes.
pub open spec fn marker_bytes() -> Seq<u8> {
    seq![
        35u8, 32, 115, 101, 116, 32, 98, 121, 32, 102, 105, 103, 109, 97, 32, 110, 101, 116, 32,
        111, 107,
    ]
}

/// A comment line starts with `#`.
pub open spec fn is_comment(line: Seq<u8>) -> bool {
    line.len() > 0 && line[0] == 35
}

/// The position of the first non-separator byte at or after `i`.
pub open spec fn skip_spaces(s: Seq<u8>, i: int) -> int
    decreases s.len() - i,
{
    if 0 <= i < s.len() && is_space(s[i]) {
        skip_spaces(s, i + 1)
    } else {
        i
    }
}

/// The position of the first separator byte at or after `i`, or the end.
pub open spec fn skip_token(s: Seq<u8>, i: int) -> int
    decreases s.len() - i,
{
    if 0 <= i < s.len() && !is_space(s[i]) {
        skip_token(s, i + 1)
    } else {
        i
    }
}

/// Where the second token of a line begins: past the leading separators,
/// the first token, and the separators after it.
pub open spec fn tok2_start(line: Seq<u8>) -> int {
    skip_spaces(line, skip_token(line, skip_spaces(line, 0)))
}

/// Where the second token of a line ends.
pub open spec fn tok2_end(line: Seq<u8>) -> int {
    skip_token(line, tok2_start(line))
}

/// Whether a line has at least two tokens: an IP and a first hostname.
pub open spec fn has_two_tokens(line: Seq<u8>) -> bool {
    tok2_start(line) < line.len()
}

/// The significant hostname of a mapping line: its second token.
pub open spec fn hostname_of(line: Seq<u8>) -> Seq<u8> {
    line.subrange(tok2_start(line), tok2_end(line))
}

/// A well-formed token: non-empty and free of separators.
pub open spec fn wf_token(t: Seq<u8>) -> bool {
    t.len() > 0 && forall|k: int| 0 <= k < t.len() ==> !is_space(t[k])
}

/// A well-formed `(ip, hostname)` pair for a mapping line built with
/// separator `sep`: both tokens well formed, and the line not a comment.
pub open spec fn wf_pair(ip: Seq<u8>, host: Seq<u8>, sep: u8) -> bool {
    wf_token(ip) && wf_token(host) && is_space(sep) && ip[0] != 35
}

/// The canonical text of a mapping line: IP, separator, hostname.
pub open spec fn pair_line(ip: Seq<u8>, host: Seq<u8>, sep: u8) -> Seq<u8> {
    ip + seq![sep] + host
}

/// The marker is itself a comment line.
pub proof fn lemma_marker_is_comment()
    ensures
        is_comment(marker_bytes()),
{
    assert(marker_bytes().len() == 21);
    assert(marker_bytes()[0] == 35);
}

/// `skip_spaces` lands exactly on the first position that is not preceded
/// only by separators.
pub proof fn lemma_skip_spaces_exact(s: Seq<u8>, i: int, j: int)
    requires
        0 <= i <= j <= s.len(),
        forall|k: int| i <= k < j ==> is_space(s[k]),
        j == s.len() || !is_space(s[j]),
    ensures
        skip_spaces(s, i) == j,
    decreases j - i,
{
    if i < j {
        lemma_skip_spaces_exact(s, i + 1, j);
    }
}

/// `skip_token` lands exactly on the first separator after a run of
/// non-separator bytes.
pub proof fn lemma_skip_token_exact(s: Seq<u8>, i: int, j: int)
    requires
        0 <= i <= j <= s.len(),
        forall|k: int| i <= k < j ==> !is_space(s[k]),
        j == s.len() || is_space(s[j]),
    ensures
        skip_token(s, i) == j,
    decreases j - i,
{
    if i < j {
        lemma_skip_token_exact(s, i + 1, j);
    }
}

/// Tokenizing the canonical line of a well-formed pair gives back exactly
/// the pair: the line is no comment, and its significant hostname is the
/// pair's hostname.
pub proof fn lemma_pair_line_tokens(ip: Seq<u8>, host: Seq<u8>, sep: u8)
    requires
        wf_pair(ip, host, sep),
    ensures
        !is_comment(pair_line(ip, host, sep)),
        has_two_tokens(pair_line(ip, host, sep)),
        hostname_of(pair_line(ip, host, sep)) == host,
{
    let l = pair_line(ip, host, sep);
    let n = ip.len() as int;
    assert(l.len() == n + 1 + host.len());
    assert(forall|k: int| 0 <= k < n ==> l[k] == ip[k]);
    assert(l[n] == sep);
    assert(forall|k: int| n + 1 <= k < l.len() ==> l[k] == host[k - n - 1]);
    lemma_skip_spaces_exact(l, 0, 0);
    lemma_skip_token_exact(l, 0, n);
    lemma_skip_spaces_exact(l, n, n + 1);
    lemma_skip_token_exact(l, n + 1, l.len() as int);
    assert(tok2_start(l) == n + 1);
    assert(l.subrange(n + 1, l.len() as int) =~= host);
}

/// The position of the first occurrence of `b` at or after `i`, or the end.
pub open spec fn find_byte(s: Seq<u8>, b: u8, i: int) -> int
    decreases s.len() - i,
{
    if 0 <= i < s.len() && s[i] != b {
        find_byte(s, b, i + 1)
    } else {
        i
    }
}

proof fn lemma_find_byte_exact(s: Seq<u8>, b: u8, i: int, j: int)
    requires
        0 <= i <= j <= s.len(),
        forall|t: int| i <= t < j ==> s[t] != b,
        j == s.len() || s[j] == b,
    ensures
        find_byte(s, b, i) == j,
    decreases j - i,
{
    if i < j {
        lemma_find_byte_exact(s, b, i + 1, j);
    }
}

/// A line as the platform's line reader hands it over: the trailing
/// carriage return of a line that ended in `\r\n` is stripped.
pub open spec fn strip_cr(line: Seq<u8>) -> Seq<u8> {
    if line.len() > 0 && line.last() == 13 {
        line.drop_last()
    } else {
        line
    }
}

/// The logical lines of a file's content: split at every newline byte, the
/// newline itself dropped and a carriage return before it stripped; a final
/// fragment without a newline is a line of its own, kept as it is; a
/// trailing newline produces no empty final line.
pub open spec fn split_spec(content: Seq<u8>) -> Seq<Seq<u8>>
    decreases content.len(),
{
    if content.len() == 0 {
        Seq::empty()
    } else {
        let k = find_byte(content, 10, 0);
        if 0 <= k < content.len() {
            seq![strip_cr(content.subrange(0, k))] + split_spec(
                content.subrange(k + 1, content.len() as int),
            )
        } else {
            seq![content]
        }
    }
}

/// The file content that a list of lines is written back as: every line
/// followed by one newline byte.
pub open spec fn joined_bytes(lines: Seq<Seq<u8>>) -> Seq<u8>
    decreases lines.len(),
{
    if lines.len() == 0 {
        Seq::empty()
    } else {
        joined_bytes(lines.drop_last()) + lines.last() + seq![10u8]
    }
}

/// Copy of a byte vector, byte for byte.
pub fn clone_bytes(a: &Vec<u8>) -> (r: Vec<u8>)
    ensures
        r@ == a@,
{
    let mut out: Vec<u8> = Vec::new();
    let n = a.len();
    let mut i: usize = 0;
    while i < n
        invariant
            n == a@.len(),
            i <= n,
            out@ == a@.subrange(0, i as int),
        decreases n - i,
    {
        proof {
            assert(a@.subrange(0, i as int + 1) =~= a@.subrange(0, i as int).push(a@[i as int]));
        }
        out.push(a[i]);
        i = i + 1;
    }
    proof {
        assert(a@.subrange(0, n as int) =~= a@);
    }
    out
}

/// Append every byte of `tail` to `out`.
pub fn append_bytes(out: &mut Vec<u8>, tail: &Vec<u8>)
    ensures
        final(out)@ == old(out)@ + tail@,
{
    let ghost base = out@;
    let n = tail.len();
    let mut i: usize = 0;
    proof {
        assert(base + tail@.subrange(0, 0) =~= base);
    }
    while i < n
        invariant
            n == tail@.len(),
            i <= n,
            out@ == base + tail@.subrange(0, i as int),
        decreases n - i,
    {
        proof {
            assert(base + tail@.subrange(0, i as int + 1) =~= (base + tail@.subrange(
                0,
                i as int,
            )).push(tail@[i as int]));
        }
        out.push(tail[i]);
        i = i + 1;
    }
    proof {
        assert(base + tail@.subrange(0, n as int) =~= base + tail@);
    }
}

/// Byte-for-byte equality of two byte vectors.
pub fn bytes_eq(a: &Vec<u8>, b: &Vec<u8>) -> (r: bool)
    ensures
        r == (a@ == b@),
{
    if a.len() != b.len() {
        return false;
    }
    let n = a.len();
    let mut i: usize = 0;
    while i < n
        invariant
            n == a@.len(),
            n == b@.len(),
            i <= n,
            forall|k: int| 0 <= k < i ==> a@[k] == b@[k],
        decreases n - i,
    {
        if a[i] != b[i] {
            return false;
        }
        i = i + 1;
    }
    proof {
        assert(a@ =~= b@);
    }
    true
}

/// Whether `x` occurs among `lines`, byte for byte.
pub fn has_line(lines: &Vec<Vec<u8>>, x: &Vec<u8>) -> (r: bool)
    ensures
        r == lines.deep_view().contains(x@),
{
    broadcast use lemma_bytes_deep_view;

    let n = lines.len();
    let mut i: usize = 0;
    while i < n
        invariant
            n == lines@.len(),
            i <= n,
            forall|k: int| 0 <= k < i ==> lines.deep_view()[k] != x@,
        decreases n - i,
    {
        proof {
            assert(lines@[i as int].deep_view() == lines@[i as int]@);
            assert(lines.deep_view()[i as int] == lines@[i as int]@);
        }
        if bytes_eq(&lines[i], x) {
            return true;
        }
        i = i + 1;
    }
    false
}

/// The ownership marker line as a byte vector.
pub fn marker_line() -> (r: Vec<u8>)
    ensures
        r@ == marker_bytes(),
{
    let r: Vec<u8> = vec![
        35u8, 32, 115, 101, 116, 32, 98, 121, 32, 102, 105, 103, 109, 97, 32, 110, 101, 116, 32,
        111, 107,
    ];
    proof {
        assert(r@ =~= marker_bytes());
    }
    r
}

/// Whether a line is a comment: its first byte is `#`.
pub fn line_is_comment(line: &Vec<u8>) -> (r: bool)
    ensures
        r == is_comment(line@),
{
    line.len() > 0 && line[0] == 35
}

/// First position at or after `from` holding neither space nor tab.
fn skip_spaces_from(line: &Vec<u8>, from: usize) -> (r: usize)
    requires
        from <= line@.len(),
    ensures
        r as int == skip_spaces(line@, from as int),
        from <= r <= line@.len(),
{
    let n = line.len();
    let mut i: usize = from;
    while i < n && (line[i] == 32 || line[i] == 9)
        invariant
            n == line@.len(),
            from <= i <= n,
            skip_spaces(line@, from as int) == skip_spaces(line@, i as int),
        decreases n - i,
    {
        i = i + 1;
    }
    i
}

/// First position at or after `from` holding a space or tab, or the end.
fn skip_token_from(line: &Vec<u8>, from: usize) -> (r: usize)
    requires
        from <= line@.len(),
    ensures
        r as int == skip_token(line@, from as int),
        from <= r <= line@.len(),
{
    let n = line.len();
    let mut i: usize = from;
    while i < n && line[i] != 32 && line[i] != 9
        invariant
            n == line@.len(),
            from <= i <= n,
            skip_token(line@, from as int) == skip_token(line@, i as int),
        decreases n - i,
    {
        i = i + 1;
    }
    i
}

/// The bytes of `line` from `s` up to `e`.
fn copy_range(line: &Vec<u8>, s: usize, e: usize) -> (r: Vec<u8>)
    requires
        s <= e <= line@.len(),
    ensures
        r@ == line@.subrange(s as int, e as int),
{
    let mut out: Vec<u8> = Vec::new();
    let mut i: usize = s;
    while i < e
        invariant
            s <= i <= e <= line@.len(),
            out@ == line@.subrange(s as int, i as int),
        decreases e - i,
    {
        proof {
            assert(line@.subrange(s as int, i as int + 1) =~= line@.subrange(
                s as int,
                i as int,
            ).push(line@[i as int]));
        }
        out.push(line[i]);
        i = i + 1;
    }
    out
}

/// The significant hostname of a line: its second token, or `None` where the
/// line has fewer than two tokens.
pub fn second_token(line: &Vec<u8>) -> (r: Option<Vec<u8>>)
    ensures
        r is Some <==> has_two_tokens(line@),
        r matches Some(h) ==> h@ == hostname_of(line@),
{
    let t1s = skip_spaces_from(line, 0);
    let t1e = skip_token_from(line, t1s);
    let t2s = skip_spaces_from(line, t1e);
    if t2s >= line.len() {
        None
    } else {
        let t2e = skip_token_from(line, t2s);
        Some(copy_range(line, t2s, t2e))
    }
}

/// Split file content into its logical lines, as the hosts store works on
/// them.
pub fn split_lines(content: &Vec<u8>) -> (r: Vec<Vec<u8>>)
    ensures
        r.deep_view() == split_spec(content@),
{
    broadcast use lemma_bytes_deep_view;

    let mut out: Vec<Vec<u8>> = Vec::new();
    let n = content.len();
    let mut p: usize = 0;
    proof {
        assert(content@.skip(0) =~= content@);
        assert(out.deep_view() =~= Seq::<Seq<u8>>::empty());
        assert(out.deep_view() + split_spec(content@) =~= split_spec(content@));
    }
    while p < n
        invariant
            n == content@.len(),
            p <= n,
            split_spec(content@) == out.deep_view() + split_spec(content@.skip(p as int)),
        decreases n - p,
    {
        let ghost suffix = content@.skip(p as int);
        let mut k: usize = p;
        while k < n && content[k] != 10
            invariant
                n == content@.len(),
                p <= k <= n,
                forall|t: int| p <= t < k ==> content@[t] != 10,
            decreases n - k,
        {
            k = k + 1;
        }
        let ghost prev = out.deep_view();
        proof {
            assert(forall|t: int| 0 <= t < suffix.len() ==> suffix[t] == content@[p + t]);
            lemma_find_byte_exact(suffix, 10, 0, k - p as int);
        }
        if k == n {
            let line = copy_range(content, p, n);
            proof {
                assert(line@ =~= suffix);
                assert(split_spec(suffix) == seq![suffix]);
            }
            out.push(line);
            proof {
                broadcast use lemma_bytes_deep_view;

                assert(out.deep_view() =~= prev.push(suffix));
                assert(prev.push(suffix) =~= prev + seq![suffix]);
                assert(content@.skip(n as int) =~= Seq::<u8>::empty());
                assert(out.deep_view() + split_spec(content@.skip(n as int)) =~= out.deep_view());
            }
            p = n;
        } else {
            let ghost raw = suffix.subrange(0, k - p as int);
            proof {
                assert(raw =~= content@.subrange(p as int, k as int));
            }
            let line = if k > p && content[k - 1] == 13 {
                copy_range(content, p, k - 1)
            } else {
                copy_range(content, p, k)
            };
            proof {
                if k > p && content@[k as int - 1] == 13 {
                    assert(raw.last() == content@[k as int - 1]);
                    assert(line@ =~= raw.drop_last());
                    assert(line@ == strip_cr(raw));
                } else {
                    assert(line@ == strip_cr(raw));
                }
            }
            out.push(line);
            proof {
                broadcast use lemma_bytes_deep_view;

                assert(out.deep_view() =~= prev.push(strip_cr(raw)));
                assert(suffix.subrange(k - p as int + 1, suffix.len() as int) =~= content@.skip(
                    k as int + 1,
                ));
                assert(split_spec(suffix) == seq![strip_cr(raw)] + split_spec(
                    content@.skip(k as int + 1),
                ));
                assert(prev.push(strip_cr(raw)) + split_spec(content@.skip(k as int + 1)) =~= prev
                    + split_spec(suffix));
            }
            p = k + 1;
        }
    }
    proof {
        assert(content@.skip(n as int) =~= Seq::<u8>::empty());
        assert(out.deep_view() + split_spec(content@.skip(n as int)) =~= out.deep_view());
    }
    out
}

/// Join logical lines back into file content, one newline after every
/// line; an empty line list is written as a single newline.
pub fn join_lines(lines: &Vec<Vec<u8>>) -> (r: Vec<u8>)
    ensures
        lines@.len() > 0 ==> r@ == joined_bytes(lines.deep_view()),
        lines@.len() == 0 ==> r@ == seq![10u8],
{
    broadcast use lemma_bytes_deep_view;

    if lines.len() == 0 {
        let r: Vec<u8> = vec![10u8];
        proof {
            assert(r@ =~= seq![10u8]);
        }
        return r;
    }
    let ghost lv = lines.deep_view();
    let mut out: Vec<u8> = Vec::new();
    let n = lines.len();
    let mut i: usize = 0;
    while i < n
        invariant
            n == lines@.len(),
            i <= n,
            lv == lines.deep_view(),
            out@ == joined_bytes(lv.take(i as int)),
        decreases n - i,
    {
        proof {
            assert(lines@[i as int].deep_view() == lines@[i as int]@);
            assert(lv[i as int] == lines@[i as int]@);
            assert(lv.take(i as int + 1).drop_last() =~= lv.take(i as int));
            assert(lv.take(i as int + 1).last() == lv[i as int]);
        }
        let ghost before = out@;
        append_bytes(&mut out, &lines[i]);
        out.push(10);
        proof {
            assert(out@ =~= before + lv[i as int] + seq![10u8]);
        }
        i = i + 1;
    }
    proof {
        assert(lv.take(n as int) =~= lv);
    }
    out
}

/// The canonical mapping line for a pair: IP, one separator byte, hostname.
pub fn make_pair_line(ip: &Vec<u8>, host: &Vec<u8>, sep: u8) -> (r: Vec<u8>)
    ensures
        r@ == pair_line(ip@, host@, sep),
{
    let mut out = clone_bytes(ip);
    out.push(sep);
    proof {
        assert(out@ =~= ip@ + seq![sep] + host@.subrange(0, 0));
    }
    let n = host.len();
    let mut i: usize = 0;
    while i < n
        invariant
            n == host@.len(),
            i <= n,
            out@ == ip@ + seq![sep] + host@.subrange(0, i as int),
        decreases n - i,
    {
        proof {
            assert(host@.subrange(0, i as int + 1) =~= host@.subrange(0, i as int).push(
                host@[i as int],
            ));
            assert((ip@ + seq![sep] + host@.subrange(0, i as int + 1)) =~= (ip@ + seq![sep]
                + host@.subrange(0, i as int)).push(host@[i as int]));
        }
        out.push(host[i]);
        i = i + 1;
    }
    proof {
        assert(host@.subrange(0, n as int) =~= host@);
    }
    out
}

} // verus!
