//! The page served for every path outside the asset namespace.
use vstd::prelude::*;
use crate::locator::append_bytes;
use crate::route::{in_asset_namespace, route_of, RouteView};

verus! {

/// The HTTP status of every entry page, including the error page.
pub const STATUS_OK: u16 = 200;

/// `<h1>Error: index.html not found at "`
pub open spec fn error_head() -> Seq<u8> {
    seq![0x3cu8, 0x68u8, 0x31u8, 0x3eu8, 0x45u8, 0x72u8, 0x72u8, 0x6fu8, 0x72u8, 0x3au8, 0x20u8, 0x69u8, 0x6eu8, 0x64u8, 0x65u8, 0x78u8, 0x2eu8, 0x68u8, 0x74u8, 0x6du8, 0x6cu8, 0x20u8, 0x6eu8, 0x6fu8, 0x74u8, 0x20u8, 0x66u8, 0x6fu8, 0x75u8, 0x6eu8, 0x64u8, 0x20u8, 0x61u8, 0x74u8, 0x20u8, 0x22u8]
}

/// `"</h1>`
pub open spec fn error_tail() -> Seq<u8> {
    seq![0x22u8, 0x3cu8, 0x2fu8, 0x68u8, 0x31u8, 0x3eu8]
}

/// `Failed to read index.html from "`
pub open spec fn diagnostic_head() -> Seq<u8> {
    seq![0x46u8, 0x61u8, 0x69u8, 0x6cu8, 0x65u8, 0x64u8, 0x20u8, 0x74u8, 0x6fu8, 0x20u8, 0x72u8, 0x65u8, 0x61u8, 0x64u8, 0x20u8, 0x69u8, 0x6eu8, 0x64u8, 0x65u8, 0x78u8, 0x2eu8, 0x68u8, 0x74u8, 0x6du8, 0x6cu8, 0x20u8, 0x66u8, 0x72u8, 0x6fu8, 0x6du8, 0x20u8, 0x22u8]
}

/// `": `
pub open spec fn diagnostic_separator() -> Seq<u8> {
    seq![0x22u8, 0x3au8, 0x20u8]
}

/// `Error`
pub open spec fn error_word() -> Seq<u8> {
    seq![0x45u8, 0x72u8, 0x72u8, 0x6fu8, 0x72u8]
}

pub const BACKSLASH: u8 = 0x5c;

pub const NEWLINE: u8 = 0x0a;

/// The lowercase hexadecimal digit for `n < 16`.
pub open spec fn hex_char(n: u8) -> u8 {
    if n < 10 {
        (0x30 + n) as u8
    } else {
        (0x61 + n - 10) as u8
    }
}

/// The hexadecimal digits of `b`, without leading zeros.
pub open spec fn hex_digits(b: u8) -> Seq<u8> {
    if b < 16 {
        seq![hex_char(b)]
    } else {
        seq![hex_char(b / 16), hex_char(b % 16)]
    }
}

/// How one byte of a path is written in a message, as Rust's debug
/// formatting writes it: `"` and `\` get a backslash; tab, line feed,
/// carriage return and NUL become `\t`, `\n`, `\r`, `\0`; the other control
/// bytes and DEL become `\u{..}`; every other byte stands for itself.
pub open spec fn escaped_byte(b: u8) -> Seq<u8> {
    if b == 0x22 {
        seq![BACKSLASH, 0x22u8]
    } else if b == BACKSLASH {
        seq![BACKSLASH, BACKSLASH]
    } else if b == 0x09 {
        seq![BACKSLASH, 0x74u8]
    } else if b == NEWLINE {
        seq![BACKSLASH, 0x6eu8]
    } else if b == 0x0d {
        seq![BACKSLASH, 0x72u8]
    } else if b == 0 {
        seq![BACKSLASH, 0x30u8]
    } else if b < 0x20 || b == 0x7f {
        seq![BACKSLASH, 0x75u8, 0x7bu8] + hex_digits(b) + seq![0x7du8]
    } else {
        seq![b]
    }
}

/// A path written with every byte escaped.
pub open spec fn escaped(s: Seq<u8>) -> Seq<u8>
    decreases s.len(),
{
    if s.len() == 0 {
        Seq::empty()
    } else {
        escaped(s.drop_last()) + escaped_byte(s.last())
    }
}

/// `s` holds no byte `b`.
pub open spec fn free_of(s: Seq<u8>, b: u8) -> bool {
    forall|k: int| 0 <= k < s.len() ==> s[k] != b
}

/// No byte of `s` needs escaping.
pub open spec fn plain(s: Seq<u8>) -> bool {
    forall|k: int| 0 <= k < s.len() ==> escaped_byte(#[trigger] s[k]) == seq![s[k]]
}

/// The HTML body shown when the entry document at `path` cannot be read.
pub open spec fn error_body(path: Seq<u8>) -> Seq<u8> {
    error_head() + escaped(path) + error_tail()
}

/// The diagnostic line for a failed read of the entry document at `path`.
pub open spec fn diagnostic_line(path: Seq<u8>, error: Seq<u8>) -> Seq<u8> {
    diagnostic_head() + escaped(path) + diagnostic_separator() + error
}

proof fn lemma_escaped_no_newline(s: Seq<u8>)
    ensures
        free_of(escaped(s), NEWLINE),
    decreases s.len(),
{
    if s.len() > 0 {
        lemma_escaped_no_newline(s.drop_last());
        let b = s.last();
        assert(free_of(escaped_byte(b), NEWLINE)) by {
            if b < 16 {
                assert(hex_digits(b) == seq![hex_char(b)]);
            }
        }
        let e = escaped(s);
        assert forall|k: int| 0 <= k < e.len() implies e[k] != NEWLINE by {
            let prev = escaped(s.drop_last());
            if k < prev.len() {
                assert(e[k] == prev[k]);
            } else {
                assert(e[k] == escaped_byte(b)[k - prev.len()]);
            }
        }
    }
}

proof fn lemma_plain_unescaped(s: Seq<u8>)
    requires
        plain(s),
    ensures
        escaped(s) == s,
    decreases s.len(),
{
    if s.len() > 0 {
        let prev = s.drop_last();
        assert forall|k: int| 0 <= k < prev.len() implies escaped_byte(#[trigger] prev[k]) == seq![prev[k]] by {
            assert(prev[k] == s[k]);
        }
        lemma_plain_unescaped(prev);
        assert(escaped_byte(s[s.len() - 1]) == seq![s[s.len() - 1]]);
        assert(prev + seq![s.last()] =~= s);
    }
}

fn hex_char_of(n: u8) -> (r: u8)
    requires
        n < 16,
    ensures
        r == hex_char(n),
{
    if n < 10 {
        0x30 + n
    } else {
        0x61 + n - 10
    }
}

/// Appends `escaped_byte(b)` to `out`.
fn push_escaped(out: &mut Vec<u8>, b: u8)
    ensures
        final(out)@ == old(out)@ + escaped_byte(b),
{
    let short: Option<u8> = if b == 0x22 {
        Some(0x22)
    } else if b == BACKSLASH {
        Some(BACKSLASH)
    } else if b == 0x09 {
        Some(0x74)
    } else if b == NEWLINE {
        Some(0x6e)
    } else if b == 0x0d {
        Some(0x72)
    } else if b == 0 {
        Some(0x30)
    } else {
        None
    };
    match short {
        Some(c) => {
            out.push(BACKSLASH);
            out.push(c);
        },
        None => {
            if b < 0x20 || b == 0x7f {
                out.push(BACKSLASH);
                out.push(0x75);
                out.push(0x7b);
                if b >= 16 {
                    out.push(hex_char_of(b / 16));
                }
                out.push(hex_char_of(b % 16));
                out.push(0x7d);
                proof {
                    if b < 16 {
                        assert(b % 16 == b);
                    }
                }
            } else {
                out.push(b);
            }
        },
    }
    assert(final(out)@ =~= old(out)@ + escaped_byte(b));
}

/// Appends the escaped form of `s` to `out`.
pub fn append_escaped(out: &mut Vec<u8>, s: &[u8])
    ensures
        final(out)@ == old(out)@ + escaped(s@),
{
    let mut i: usize = 0;
    assert(s@.take(0) =~= Seq::<u8>::empty());
    assert(old(out)@ + escaped(Seq::<u8>::empty()) =~= old(out)@);
    while i < s.len()
        invariant
            i <= s@.len(),
            out@ == old(out)@ + escaped(s@.take(i as int)),
        decreases s@.len() - i,
    {
        let ghost before = out@;
        push_escaped(out, s[i]);
        assert(s@.take(i + 1).drop_last() =~= s@.take(i as int));
        assert(out@ =~= old(out)@ + escaped(s@.take(i + 1)));
        i = i + 1;
    }
    assert(s@.take(i as int) =~= s@);
}

/// The body of the entry page, given what reading the entry document gave:
/// its bytes, or the text of the error.
pub open spec fn entry_body(read: Result<Seq<u8>, Seq<u8>>, path: Seq<u8>) -> Seq<u8> {
    match read {
        Ok(document) => document,
        Err(_) => error_body(path),
    }
}

/// The bytes of a read result.
pub open spec fn read_view(read: Result<Vec<u8>, Vec<u8>>) -> Result<Seq<u8>, Seq<u8>> {
    match read {
        Ok(d) => Ok(d@),
        Err(e) => Err(e@),
    }
}

/// `needle` occurs as a contiguous run of bytes in `hay`.
pub open spec fn occurs_in(needle: Seq<u8>, hay: Seq<u8>) -> bool {
    exists|i: int| 0 <= i <= hay.len() - needle.len() && #[trigger] hay.subrange(i, i + needle.len()) == needle
}

/// The response to a request outside the asset namespace.
pub struct EntryPage {
    pub status: u16,
    pub body: Vec<u8>,
    /// A line for the error stream, where the entry document could not be read.
    pub diagnostic: Option<Vec<u8>>,
}

/// Builds the entry page from the result of reading the entry document at
/// `index_path` for this request: the document verbatim, or an error page
/// naming the path together with a diagnostic line. The status is 200 either way.
pub fn entry_page(read: Result<Vec<u8>, Vec<u8>>, index_path: &[u8]) -> (r: EntryPage)
    ensures
        r.status == STATUS_OK,
        r.body@ == entry_body(read_view(read), index_path@),
        match read {
            Ok(_) => r.diagnostic is None,
            Err(e) => r.diagnostic matches Some(line) && line@ == diagnostic_line(index_path@, e@)
                && (free_of(e@, NEWLINE) ==> free_of(line@, NEWLINE)),
        },
{
    match read {
        Ok(document) => EntryPage { status: STATUS_OK, body: document, diagnostic: None },
        Err(error) => {
            let mut body: Vec<u8> = vec![0x3c, 0x68, 0x31, 0x3e, 0x45, 0x72, 0x72, 0x6f, 0x72, 0x3a, 0x20, 0x69, 0x6e, 0x64, 0x65, 0x78, 0x2e, 0x68, 0x74, 0x6d, 0x6c, 0x20, 0x6e, 0x6f, 0x74, 0x20, 0x66, 0x6f, 0x75, 0x6e, 0x64, 0x20, 0x61, 0x74, 0x20, 0x22];
            assert(body@ =~= error_head());
            append_escaped(&mut body, index_path);
            let tail: Vec<u8> = vec![0x22, 0x3c, 0x2f, 0x68, 0x31, 0x3e];
            assert(tail@ =~= error_tail());
            append_bytes(&mut body, tail.as_slice());
            let mut line: Vec<u8> = vec![0x46, 0x61, 0x69, 0x6c, 0x65, 0x64, 0x20, 0x74, 0x6f, 0x20, 0x72, 0x65, 0x61, 0x64, 0x20, 0x69, 0x6e, 0x64, 0x65, 0x78, 0x2e, 0x68, 0x74, 0x6d, 0x6c, 0x20, 0x66, 0x72, 0x6f, 0x6d, 0x20, 0x22];
            assert(line@ =~= diagnostic_head());
            append_escaped(&mut line, index_path);
            let sep: Vec<u8> = vec![0x22, 0x3a, 0x20];
            assert(sep@ =~= diagnostic_separator());
            append_bytes(&mut line, sep.as_slice());
            append_bytes(&mut line, error.as_slice());
            proof {
                if free_of(error@, NEWLINE) {
                    lemma_one_diagnostic_line(index_path@, error@);
                }
            }
            EntryPage { status: STATUS_OK, body, diagnostic: Some(line) }
        },
    }
}

/// Every request outside the asset namespace is answered with the entry
/// document exactly as read.
pub proof fn lemma_fallback_serves_document(p: Seq<u8>, document: Seq<u8>, path: Seq<u8>)
    requires
        !in_asset_namespace(p),
    ensures
        route_of(p) == RouteView::Entry,
        entry_body(Ok(document), path) == document,
{
}

/// The entry page is built from the current request's read alone: two
/// requests that read different documents answer with those documents.
pub proof fn lemma_entry_page_fresh(first: Seq<u8>, second: Seq<u8>, path: Seq<u8>)
    ensures
        entry_body(Ok(first), path) == first,
        entry_body(Ok(second), path) == second,
        first != second ==> entry_body(Ok(first), path) != entry_body(Ok(second), path),
{
}

/// When the entry document cannot be read, the page body holds the word
/// `Error` and the path that was tried, escaped; a path with no byte that
/// needs escaping appears as it is.
pub proof fn lemma_missing_document_page(path: Seq<u8>, error: Seq<u8>)
    ensures
        occurs_in(error_word(), entry_body(Err(error), path)),
        occurs_in(escaped(path), entry_body(Err(error), path)),
        plain(path) ==> occurs_in(path, entry_body(Err(error), path)),
{
    let body = entry_body(Err(error), path);
    assert(body.subrange(4, 4 + error_word().len() as int) =~= error_word());
    let n = error_head().len() as int;
    let esc = escaped(path);
    assert(body.subrange(n, n + esc.len()) =~= esc);
    if plain(path) {
        lemma_plain_unescaped(path);
    }
}

/// A failed read gives exactly one diagnostic line: the path in it is
/// escaped, so the line holds a line feed only where the error text does.
pub proof fn lemma_one_diagnostic_line(path: Seq<u8>, error: Seq<u8>)
    requires
        free_of(error, NEWLINE),
    ensures
        free_of(diagnostic_line(path, error), NEWLINE),
{
    let line = diagnostic_line(path, error);
    let esc = escaped(path);
    lemma_escaped_no_newline(path);
    let head = diagnostic_head();
    let sep = diagnostic_separator();
    assert forall|k: int| 0 <= k < line.len() implies line[k] != NEWLINE by {
        if k < head.len() {
            assert(line[k] == head[k]);
        } else if k < head.len() + esc.len() {
            assert(line[k] == esc[k - head.len()]);
        } else if k < head.len() + esc.len() + sep.len() {
            assert(line[k] == sep[k - head.len() - esc.len()]);
        } else {
            assert(line[k] == error[k - head.len() - esc.len() - sep.len()]);
        }
    }
}

} // verus!
