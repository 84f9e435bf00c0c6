//! The small JSON text helpers of the desktop bridge: quoting a string as a
//! JSON literal, and pulling a field out of a request by plain text search.
use vstd::prelude::*;
use crate::text::{
    chars_of, find_chars, find_first, lemma_find_from_spec, push_all, slice_vec, string_of, trim,
    trim_bounds, trim_start, char_is_whitespace,
};

verus! {

/// A control character (Unicode category Cc), as std's `char::is_control`.
pub open spec fn is_control(c: char) -> bool {
    (c as u32) < 0x20 || (0x7f <= (c as u32) && (c as u32) < 0xa0)
}

/// A lower-case hexadecimal digit for `0 <= v < 16`.
pub open spec fn hex_lower(v: int) -> char {
    if v < 10 {
        (48 + v) as char
    } else {
        (87 + v) as char
    }
}

/// How one character is written inside the quotes.
pub open spec fn escape_char(c: char) -> Seq<char> {
    if c == '"' {
        seq!['\\', '"']
    } else if c == '\\' {
        seq!['\\', '\\']
    } else if c == '\n' {
        seq!['\\', 'n']
    } else if c == '\r' {
        seq!['\\', 'r']
    } else if c == '\t' {
        seq!['\\', 't']
    } else if is_control(c) {
        let v = c as u32 as int;
        seq!['\\', 'u', hex_lower(v / 4096), hex_lower((v / 256) % 16), hex_lower((v / 16) % 16), hex_lower(v % 16)]
    } else {
        seq![c]
    }
}

/// The escaped characters of `s`, without the quotes.
pub open spec fn escape_body(s: Seq<char>) -> Seq<char>
    decreases s.len(),
{
    if s.len() == 0 {
        seq![]
    } else {
        escape_body(s.drop_last()) + escape_char(s.last())
    }
}

/// `s` as a quoted JSON string literal.
pub open spec fn json_quoted(s: Seq<char>) -> Seq<char> {
    seq!['"'] + escape_body(s) + seq!['"']
}

fn hex_digit(v: u32) -> (c: char)
    requires
        v < 16,
    ensures
        c == hex_lower(v as int),
{
    if v < 10 {
        ((48 + v) as u8) as char
    } else {
        ((87 + v) as u8) as char
    }
}

fn push_escaped(out: &mut Vec<char>, c: char)
    ensures
        final(out)@ == old(out)@ + escape_char(c),
{
    let ghost before = out@;
    if c == '"' {
        out.push('\\');
        out.push('"');
    } else if c == '\\' {
        out.push('\\');
        out.push('\\');
    } else if c == '\n' {
        out.push('\\');
        out.push('n');
    } else if c == '\r' {
        out.push('\\');
        out.push('r');
    } else if c == '\t' {
        out.push('\\');
        out.push('t');
    } else if (c as u32) < 0x20 || (0x7f <= (c as u32) && (c as u32) < 0xa0) {
        let v = c as u32;
        out.push('\\');
        out.push('u');
        out.push(hex_digit(v / 4096));
        out.push(hex_digit((v / 256) % 16));
        out.push(hex_digit((v / 16) % 16));
        out.push(hex_digit(v % 16));
    } else {
        out.push(c);
    }
    assert(out@ =~= before + escape_char(c));
}

/// Quotes a string as a JSON string literal, escaping `"`, `\`, newline,
/// carriage return and tab by name and other control characters as `\u00XX`.
pub fn json_escape_raw(s: &str) -> (r: String)
    ensures
        r@ == json_quoted(s@),
{
    let mut out: Vec<char> = Vec::new();
    out.push('"');
    for c in it: s.chars()
        invariant
            it.seq() == s@,
            out@ == seq!['"'] + escape_body(it.seq().take(it.index() as int)),
    {
        let ghost k = it.index();
        push_escaped(&mut out, c);
        proof {
            assert(s@.take(k + 1).drop_last() =~= s@.take(k));
            assert(s@.take(k + 1).last() == c);
        }
    }
    assert(s@.take(s@.len() as int) =~= s@);
    out.push('"');
    string_of(out.as_slice())
}

/// Reads the body of a JSON-ish string up to its closing quote: a backslash
/// takes the next character as it stands. `None` when no closing quote comes.
pub open spec fn read_until_quote(r: Seq<char>) -> Option<Seq<char>>
    decreases r.len(),
{
    if r.len() == 0 {
        None
    } else if r[0] == '\\' {
        if r.len() == 1 {
            None
        } else {
            match read_until_quote(r.skip(2)) {
                Some(o) => Some(seq![r[1]] + o),
                None => None,
            }
        }
    } else if r[0] == '"' {
        Some(seq![])
    } else {
        match read_until_quote(r.skip(1)) {
            Some(o) => Some(seq![r[0]] + o),
            None => None,
        }
    }
}

/// `"key":"` — the text a string-valued field starts with.
pub open spec fn string_key_pattern(key: Seq<char>, spaced: bool) -> Seq<char> {
    seq!['"'] + key + (if spaced { seq!['"', ':', ' ', '"'] } else { seq!['"', ':', '"'] })
}

/// `"key":` — the text any field starts with.
pub open spec fn value_key_pattern(key: Seq<char>, spaced: bool) -> Seq<char> {
    seq!['"'] + key + (if spaced { seq!['"', ':', ' '] } else { seq!['"', ':'] })
}

/// The string read after the first place where `pat` stands in `blob`.
pub open spec fn string_after(blob: Seq<char>, pat: Seq<char>) -> Option<Seq<char>> {
    match find_first(blob, pat) {
        Some(i) => read_until_quote(blob.skip(i + pat.len())),
        None => None,
    }
}

/// The string value of field `key`, found by text search: first `"key":"`,
/// and where that gives nothing, `"key": "`.
pub open spec fn extract_string_spec(blob: Seq<char>, key: Seq<char>) -> Option<Seq<char>> {
    match string_after(blob, string_key_pattern(key, false)) {
        Some(s) => Some(s),
        None => string_after(blob, string_key_pattern(key, true)),
    }
}

fn pattern(key: &[char], tail: &[char]) -> (r: Vec<char>)
    ensures
        r@ == seq!['"'] + key@ + tail@,
{
    let mut r: Vec<char> = Vec::new();
    r.push('"');
    push_all(&mut r, key);
    push_all(&mut r, tail);
    r
}

/// Reads a string body from `s[from..]`.
fn read_string_at(s: &[char], from: usize) -> (r: Option<Vec<char>>)
    requires
        from <= s.len(),
    ensures
        match read_until_quote(s@.skip(from as int)) {
            Some(o) => r matches Some(v) && v@ == o,
            None => r is None,
        },
{
    let mut out: Vec<char> = Vec::new();
    let mut k = from;
    assert(out@ + seq![] =~= out@);
    while k < s.len()
        invariant
            from <= k <= s.len(),
            read_until_quote(s@.skip(from as int)) == (match read_until_quote(s@.skip(k as int)) {
                Some(o) => Some(out@ + o),
                None => None,
            }),
        decreases s.len() - k,
    {
        let ghost rest = s@.skip(k as int);
        let c = s[k];
        assert(rest[0] == c);
        if c == '\\' {
            if k + 1 < s.len() {
                let n = s[k + 1];
                assert(rest[1] == n);
                assert(rest.skip(2) =~= s@.skip(k + 2));
                let ghost before = out@;
                out.push(n);
                proof {
                    match read_until_quote(s@.skip(k + 2)) {
                        Some(o) => assert(before + (seq![n] + o) =~= out@ + o),
                        None => {},
                    }
                }
                k = k + 2;
            } else {
                return None;
            }
        } else if c == '"' {
            assert(out@ + seq![] =~= out@);
            return Some(out);
        } else {
            assert(rest.skip(1) =~= s@.skip(k + 1));
            let ghost before = out@;
            out.push(c);
            proof {
                match read_until_quote(s@.skip(k + 1)) {
                    Some(o) => assert(before + (seq![c] + o) =~= out@ + o),
                    None => {},
                }
            }
            k = k + 1;
        }
    }
    None
}

fn string_after_exec(blob: &[char], pat: &[char]) -> (r: Option<Vec<char>>)
    ensures
        match string_after(blob@, pat@) {
            Some(o) => r matches Some(v) && v@ == o,
            None => r is None,
        },
{
    match find_chars(blob, pat) {
        Some(i) => {
            proof {
                lemma_find_from_spec(blob@, pat@, 0);
            }
            read_string_at(blob, i + pat.len())
        },
        None => None,
    }
}

fn extract_string_chars(blob: &[char], key: &[char]) -> (r: Option<Vec<char>>)
    ensures
        match extract_string_spec(blob@, key@) {
            Some(o) => r matches Some(v) && v@ == o,
            None => r is None,
        },
{
    let p1 = pattern(key, &['"', ':', '"']);
    assert(p1@ == string_key_pattern(key@, false));
    match string_after_exec(blob, &p1) {
        Some(v) => return Some(v),
        None => {},
    }
    let p2 = pattern(key, &['"', ':', ' ', '"']);
    assert(p2@ == string_key_pattern(key@, true));
    string_after_exec(blob, &p2)
}

/// The string value of field `key` in a request text, found by text search.
pub fn extract_json_string(blob: &str, key: &str) -> (r: Option<String>)
    ensures
        match extract_string_spec(blob@, key@) {
            Some(o) => r matches Some(v) && v@ == o,
            None => r is None,
        },
{
    let b = chars_of(blob);
    let k = chars_of(key);
    match extract_string_chars(&b, &k) {
        Some(v) => Some(string_of(&v)),
        None => None,
    }
}

/// A character that ends a bare value: `,`, `}`, newline or space.
pub open spec fn ends_bare_value(c: char) -> bool {
    c == ',' || c == '}' || c == '\n' || c == ' '
}

/// The index of the first character of `s` that ends a bare value, or its length.
pub open spec fn bare_end(s: Seq<char>) -> int
    decreases s.len(),
{
    if s.len() == 0 {
        0
    } else if ends_bare_value(s[0]) {
        0
    } else {
        1 + bare_end(s.drop_first())
    }
}

/// What one pattern gives for the raw value of field `key`: `None` to go on
/// with the next pattern, `Some(r)` to answer `r`.
pub open spec fn raw_value_after(blob: Seq<char>, key: Seq<char>, pat: Seq<char>) -> Option<Option<Seq<char>>> {
    match find_first(blob, pat) {
        None => None,
        Some(i) => {
            let rest = trim_start(blob.skip(i + pat.len()));
            if rest.len() > 0 && rest[0] == '"' {
                Some(
                    match extract_string_spec(blob, key) {
                        Some(s) => Some(seq!['"'] + s + seq!['"']),
                        None => None,
                    },
                )
            } else {
                let v = trim(rest.take(bare_end(rest)));
                if v.len() > 0 {
                    Some(Some(v))
                } else {
                    None
                }
            }
        },
    }
}

/// The raw text of field `key`'s value: a string comes back with its quotes
/// (its escapes resolved), anything else up to the first `,` `}` newline or
/// space, trimmed.
pub open spec fn extract_raw_spec(blob: Seq<char>, key: Seq<char>) -> Option<Seq<char>> {
    match raw_value_after(blob, key, value_key_pattern(key, false)) {
        Some(r) => r,
        None => match raw_value_after(blob, key, value_key_pattern(key, true)) {
            Some(r) => r,
            None => None,
        },
    }
}

fn bare_end_exec(s: &[char], from: usize) -> (r: usize)
    requires
        from <= s.len(),
    ensures
        from <= r <= s.len(),
        r - from == bare_end(s@.skip(from as int)),
{
    let mut k = from;
    while k < s.len() && !(s[k] == ',' || s[k] == '}' || s[k] == '\n' || s[k] == ' ')
        invariant
            from <= k <= s.len(),
            bare_end(s@.skip(from as int)) == (k - from) + bare_end(s@.skip(k as int)),
        decreases s.len() - k,
    {
        assert(s@.skip(k as int).drop_first() =~= s@.skip(k + 1));
        k = k + 1;
    }
    k
}

fn raw_value_after_exec(blob: &[char], key: &[char], pat: &[char]) -> (r: Option<Option<Vec<char>>>)
    ensures
        match raw_value_after(blob@, key@, pat@) {
            None => r is None,
            Some(None) => r matches Some(x) && x is None,
            Some(Some(o)) => r matches Some(x) && x matches Some(v) && v@ == o,
        },
{
    match find_chars(blob, pat) {
        None => None,
        Some(i) => {
            proof {
                lemma_find_from_spec(blob@, pat@, 0);
            }
            let start = i + pat.len();
            let ghost tail = blob@.skip(start as int);
            assert(tail =~= blob@.subrange(start as int, blob.len() as int));
            let a = skip_ws_forward_to_end(blob, start);
            let ghost rest = blob@.skip(a as int);
            if a < blob.len() && blob[a] == '"' {
                match extract_string_chars(blob, key) {
                    Some(s) => {
                        let mut q: Vec<char> = Vec::new();
                        q.push('"');
                        push_all(&mut q, &s);
                        q.push('"');
                        Some(Some(q))
                    },
                    None => Some(None),
                }
            } else {
                let e = bare_end_exec(blob, a);
                assert(rest.take(bare_end(rest)) =~= blob@.subrange(a as int, e as int));
                let (x, y) = trim_bounds(blob, a, e);
                if x < y {
                    Some(Some(slice_vec(blob, x, y)))
                } else {
                    None
                }
            }
        },
    }
}

/// Index of the first non-whitespace character of `s[from..]`.
fn skip_ws_forward_to_end(s: &[char], from: usize) -> (r: usize)
    requires
        from <= s.len(),
    ensures
        from <= r <= s.len(),
        trim_start(s@.skip(from as int)) == s@.skip(r as int),
{
    let mut i = from;
    while i < s.len() && char_is_whitespace(s[i])
        invariant
            from <= i <= s.len(),
            trim_start(s@.skip(from as int)) == trim_start(s@.skip(i as int)),
        decreases s.len() - i,
    {
        assert(s@.skip(i as int).drop_first() =~= s@.skip(i + 1));
        i = i + 1;
    }
    i
}

/// The raw text of field `key`'s value in a request, found by text search.
pub fn extract_json_value_raw(blob: &str, key: &str) -> (r: Option<String>)
    ensures
        match extract_raw_spec(blob@, key@) {
            Some(o) => r matches Some(v) && v@ == o,
            None => r is None,
        },
{
    let b = chars_of(blob);
    let k = chars_of(key);
    let p1 = pattern(&k, &['"', ':']);
    assert(p1@ == value_key_pattern(k@, false));
    match raw_value_after_exec(&b, &k, &p1) {
        Some(Some(v)) => return Some(string_of(&v)),
        Some(None) => return None,
        None => {},
    }
    let p2 = pattern(&k, &['"', ':', ' ']);
    assert(p2@ == value_key_pattern(k@, true));
    match raw_value_after_exec(&b, &k, &p2) {
        Some(Some(v)) => Some(string_of(&v)),
        _ => None,
    }
}

/// No character of `s` is a control character.
pub open spec fn no_controls(s: Seq<char>) -> bool {
    forall|i: int| 0 <= i < s.len() ==> !is_control(#[trigger] s[i])
}

proof fn lemma_escape_body_front(s: Seq<char>)
    requires
        s.len() > 0,
    ensures
        escape_body(s) == escape_char(s[0]) + escape_body(s.drop_first()),
    decreases s.len(),
{
    if s.len() == 1 {
        assert(s.drop_last().len() == 0);
        assert(s.drop_first().len() == 0);
        assert(s.last() == s[0]);
        assert(escape_body(s.drop_last()) == Seq::<char>::empty());
        assert(escape_body(s.drop_first()) == Seq::<char>::empty());
        assert(escape_char(s[0]) + seq![] =~= escape_char(s[0]));
        assert(seq![] + escape_char(s.last()) =~= escape_char(s.last()));
    } else {
        lemma_escape_body_front(s.drop_last());
        assert(s.drop_last()[0] == s[0]);
        assert(s.drop_last().drop_first() =~= s.drop_first().drop_last());
        assert(s.drop_first().last() == s.last());
        assert(escape_body(s.drop_first()) == escape_body(s.drop_first().drop_last()) + escape_char(s.last()));
        assert(escape_body(s) == escape_body(s.drop_last()) + escape_char(s.last()));
        assert(escape_char(s[0]) + escape_body(s.drop_first().drop_last()) + escape_char(s.last())
            =~= escape_char(s[0]) + (escape_body(s.drop_first().drop_last()) + escape_char(s.last())));
    }
}

/// Reading back a quoted string: for a string without control characters,
/// the reader of request fields gives back exactly what the quoting wrote,
/// whatever follows the closing quote.
pub proof fn lemma_escape_read_back(s: Seq<char>, tail: Seq<char>)
    requires
        no_controls(s),
    ensures
        read_until_quote(escape_body(s) + seq!['"'] + tail) == Some(s),
    decreases s.len(),
{
    if s.len() == 0 {
        assert(escape_body(s) + seq!['"'] + tail =~= seq!['"'] + tail);
        assert(s =~= seq![]);
    } else {
        lemma_escape_body_front(s);
        let c = s[0];
        let rest = s.drop_first();
        assert(no_controls(rest)) by {
            assert forall|i: int| 0 <= i < rest.len() implies !is_control(#[trigger] rest[i]) by {
                assert(rest[i] == s[i + 1]);
            }
        }
        lemma_escape_read_back(rest, tail);
        assert(!is_control(c));
        let w = escape_body(s) + seq!['"'] + tail;
        let w2 = escape_body(rest) + seq!['"'] + tail;
        if c == '"' || c == '\\' {
            assert(w =~= seq!['\\', c] + w2);
            assert(w.skip(2) =~= w2);
        } else {
            assert(escape_char(c) == seq![c]);
            assert(w =~= seq![c] + w2);
            assert(w.skip(1) =~= w2);
        }
        assert(seq![c] + rest =~= s);
    }
}

proof fn lemma_find_at_start(hay: Seq<char>, needle: Seq<char>)
    requires
        needle.len() <= hay.len(),
        hay.take(needle.len() as int) == needle,
    ensures
        find_first(hay, needle) == Some(0int),
{
    assert(hay.subrange(0, needle.len() as int) =~= hay.take(needle.len() as int));
}

/// What a write gives back to a read: a request that begins with field
/// `key` holding `s` quoted by `json_quoted` yields `s` again through
/// `extract_json_string`, for any `s` without control characters.
pub proof fn lemma_extract_quoted_field(key: Seq<char>, s: Seq<char>, tail: Seq<char>)
    requires
        no_controls(s),
    ensures
        extract_string_spec(seq!['"'] + key + seq!['"', ':'] + json_quoted(s) + tail, key) == Some(s),
{
    let p = string_key_pattern(key, false);
    let blob = seq!['"'] + key + seq!['"', ':'] + json_quoted(s) + tail;
    let after = escape_body(s) + seq!['"'] + tail;
    assert(blob =~= p + after);
    assert(blob.take(p.len() as int) =~= p);
    lemma_find_at_start(blob, p);
    assert(blob.skip(p.len() as int) =~= after);
    lemma_escape_read_back(s, tail);
}

proof fn lemma_find_first_at(hay: Seq<char>, needle: Seq<char>, k: int, j: int)
    requires
        0 <= j <= k,
        crate::text::occurs_at(hay, needle, k),
        forall|i: int| 0 <= i < k ==> !crate::text::occurs_at(hay, needle, i),
    ensures
        crate::text::find_from(hay, needle, j) == Some(k),
    decreases k - j,
{
    if j < k {
        lemma_find_first_at(hay, needle, k, j + 1);
    }
}

/// A freeze request freezes the path it names: in
/// `{"op":"freeze","path":P,...}` with `P` written by `json_quoted`, the
/// bridge's field reader finds exactly the path, for any path without
/// control characters and whatever follows.
pub proof fn lemma_freeze_request_path(p: Seq<char>, tail: Seq<char>)
    requires
        no_controls(p),
    ensures
        extract_string_spec("{\"op\":\"freeze\",\"path\":"@ + json_quoted(p) + tail, "path"@) == Some(p),
{
    reveal_strlit("{\"op\":\"freeze\",\"path\":");
    reveal_strlit("path");
    let pre = seq!['{', '"', 'o', 'p', '"', ':', '"', 'f', 'r', 'e', 'e', 'z', 'e', '"', ','];
    let pat = string_key_pattern("path"@, false);
    let after = escape_body(p) + seq!['"'] + tail;
    let blob = "{\"op\":\"freeze\",\"path\":"@ + json_quoted(p) + tail;
    assert(pat =~= seq!['"', 'p', 'a', 't', 'h', '"', ':', '"']);
    assert(blob =~= pre + pat + after);
    assert(blob.subrange(15, 23) =~= pat);
    assert forall|i: int| 0 <= i < 15 implies !crate::text::occurs_at(blob, pat, i) by {
        if crate::text::occurs_at(blob, pat, i) {
            assert(blob.subrange(i, i + 8)[0] == blob[i]);
            assert(blob.subrange(i, i + 8)[1] == blob[i + 1]);
            assert(blob[i] == '"' && blob[i + 1] == 'p');
        }
    }
    lemma_find_first_at(blob, pat, 15, 0);
    assert(blob.skip(23) =~= after);
    lemma_escape_read_back(p, tail);
}

/// `{"op":"freeze","path":P,"value":V}`, a freeze request as a client
/// writes it.
pub open spec fn freeze_request(p: Seq<char>, v: Seq<char>) -> Seq<char> {
    "{\"op\":\"freeze\",\"path\":"@ + json_quoted(p) + ",\"value\":"@ + v + "}"@
}

/// `{"op":"unfreeze","path":P}`, an unfreeze request as a client writes it.
pub open spec fn unfreeze_request(p: Seq<char>) -> Seq<char> {
    "{\"op\":\"unfreeze\",\"path\":"@ + json_quoted(p) + "}"@
}

/// Text that quoting leaves as it is: no control character, quote or
/// backslash.
pub open spec fn plain_text(p: Seq<char>) -> bool {
    no_controls(p) && !p.contains('"') && !p.contains('\\')
}

proof fn lemma_escape_plain(p: Seq<char>)
    requires
        plain_text(p),
    ensures
        escape_body(p) == p,
    decreases p.len(),
{
    if p.len() > 0 {
        let d = p.drop_last();
        assert forall|i: int| 0 <= i < d.len() implies !is_control(#[trigger] d[i]) by {
            assert(d[i] == p[i]);
        }
        assert(!d.contains('"')) by {
            if d.contains('"') {
                let k = choose|k: int| 0 <= k < d.len() && d[k] == '"';
                assert(p[k] == '"');
            }
        }
        assert(!d.contains('\\')) by {
            if d.contains('\\') {
                let k = choose|k: int| 0 <= k < d.len() && d[k] == '\\';
                assert(p[k] == '\\');
            }
        }
        lemma_escape_plain(d);
        assert(p.last() == p[p.len() - 1]);
        assert(!is_control(p.last()));
        assert(escape_char(p.last()) == seq![p.last()]);
        assert(d.push(p.last()) =~= p);
    }
}

/// An unfreeze request unfreezes the path it names: in
/// `{"op":"unfreeze","path":P,...}` with `P` written by `json_quoted`, the
/// bridge's field reader finds exactly the path, for any path without
/// control characters and whatever follows.
pub proof fn lemma_unfreeze_request_path(p: Seq<char>, tail: Seq<char>)
    requires
        no_controls(p),
    ensures
        extract_string_spec("{\"op\":\"unfreeze\",\"path\":"@ + json_quoted(p) + tail, "path"@) == Some(p),
{
    reveal_strlit("{\"op\":\"unfreeze\",\"path\":");
    reveal_strlit("path");
    let pre = seq!['{', '"', 'o', 'p', '"', ':', '"', 'u', 'n', 'f', 'r', 'e', 'e', 'z', 'e', '"', ','];
    let pat = string_key_pattern("path"@, false);
    let after = escape_body(p) + seq!['"'] + tail;
    let blob = "{\"op\":\"unfreeze\",\"path\":"@ + json_quoted(p) + tail;
    assert(pat =~= seq!['"', 'p', 'a', 't', 'h', '"', ':', '"']);
    assert(blob =~= pre + pat + after);
    assert(blob.subrange(17, 25) =~= pat);
    assert forall|i: int| 0 <= i < 17 implies !crate::text::occurs_at(blob, pat, i) by {
        if crate::text::occurs_at(blob, pat, i) {
            assert(blob.subrange(i, i + 8)[0] == blob[i]);
            assert(blob.subrange(i, i + 8)[1] == blob[i + 1]);
            assert(blob[i] == '"' && blob[i + 1] == 'p');
        }
    }
    lemma_find_first_at(blob, pat, 17, 0);
    assert(blob.skip(25) =~= after);
    lemma_escape_read_back(p, tail);
}

/// A freeze request of `0` freezes the value `0`: for a plain path, the
/// bridge's raw value reader finds `0` in `{"op":"freeze","path":P,"value":0}`.
pub proof fn lemma_freeze_request_value(p: Seq<char>)
    requires
        plain_text(p),
    ensures
        extract_raw_spec(freeze_request(p, "0"@), "value"@) == Some("0"@),
{
    reveal_strlit("{\"op\":\"freeze\",\"path\":");
    reveal_strlit(",\"value\":");
    reveal_strlit("0");
    reveal_strlit("}");
    reveal_strlit("value");
    lemma_escape_plain(p);
    let n = p.len() as int;
    let pre = seq!['{', '"', 'o', 'p', '"', ':', '"', 'f', 'r', 'e', 'e', 'z', 'e', '"', ',', '"', 'p', 'a', 't', 'h', '"', ':', '"'];
    let suf = seq!['"', ',', '"', 'v', 'a', 'l', 'u', 'e', '"', ':', '0', '}'];
    let blob = freeze_request(p, "0"@);
    assert(blob =~= pre + p + suf);
    let pat = value_key_pattern("value"@, false);
    assert(pat =~= seq!['"', 'v', 'a', 'l', 'u', 'e', '"', ':']);
    let k = 25 + n;
    assert(blob.len() == 35 + n);
    assert forall|j: int| 0 <= j < 23 implies #[trigger] blob[j] == pre[j] by {}
    assert forall|j: int| 23 <= j < 23 + n implies #[trigger] blob[j] == p[j - 23] by {}
    assert forall|j: int| 0 <= j < 12 implies #[trigger] blob[23 + n + j] == suf[j] by {}
    assert(blob.subrange(k, k + 8) =~= pat);
    assert forall|i: int| 0 <= i < k implies !crate::text::occurs_at(blob, pat, i) by {
        if crate::text::occurs_at(blob, pat, i) {
            let w = blob.subrange(i, i + 8);
            assert(w[0] == blob[i] && w[1] == blob[i + 1] && w[6] == blob[i + 6] && w[7] == blob[i + 7]);
            assert(blob[i] == '"' && blob[i + 1] == 'v' && blob[i + 6] == '"' && blob[i + 7] == ':');
            if i < 22 {
                assert(blob[i + 1] == pre[i + 1]);
            } else if i == 22 {
                if n > 5 {
                    assert(blob[28] == p[5]);
                    assert(p.contains(p[5]));
                } else if n == 5 {
                    assert(blob[29] == suf[1]);
                } else if n == 3 {
                    assert(blob[29] == suf[3]);
                } else if n == 0 {
                    assert(blob[23] == suf[0]);
                } else {
                    assert(blob[28] == suf[5 - n]);
                }
            } else if i < 23 + n {
                assert(blob[i] == p[i - 23]);
                assert(p.contains(p[i - 23]));
            } else {
                assert(blob[i] == suf[i - 23 - n]);
                assert(blob[i + 1] == suf[i - 22 - n]);
            }
        }
    }
    lemma_find_first_at(blob, pat, k, 0);
    let r = blob.skip(k + 8);
    assert(r =~= seq!['0', '}']);
    assert(!crate::text::is_whitespace('0'));
    assert(crate::text::trim_start(r) == r);
    assert(bare_end(r.drop_first()) == 0);
    assert(bare_end(r) == 1);
    assert(r.take(1) =~= seq!['0']);
    assert(crate::text::trim_start(seq!['0']) == seq!['0']);
    assert(crate::text::trim_end(seq!['0']) == seq!['0']);
    assert("0"@ =~= seq!['0']);
}

/// The value of a hexadecimal digit of either case.
pub open spec fn hex_value(c: char) -> Option<int> {
    let v = c as u32 as int;
    if 48 <= v <= 57 {
        Some(v - 48)
    } else if 97 <= v <= 102 {
        Some(v - 87)
    } else if 65 <= v <= 70 {
        Some(v - 55)
    } else {
        None
    }
}

/// The code that four hexadecimal digits spell.
pub open spec fn hex4(a: char, b: char, c: char, d: char) -> Option<int> {
    match (hex_value(a), hex_value(b), hex_value(c), hex_value(d)) {
        (Some(x), Some(y), Some(z), Some(w)) => Some(x * 4096 + y * 256 + z * 16 + w),
        _ => None,
    }
}

/// The character a JSON two-character escape `\e` stands for.
pub open spec fn short_escape(e: char) -> Option<char> {
    if e == '"' {
        Some('"')
    } else if e == '\\' {
        Some('\\')
    } else if e == '/' {
        Some('/')
    } else if e == 'b' {
        Some('\u{8}')
    } else if e == 'f' {
        Some('\u{c}')
    } else if e == 'n' {
        Some('\n')
    } else if e == 'r' {
        Some('\r')
    } else if e == 't' {
        Some('\t')
    } else {
        None
    }
}

/// Decoding of the inside of a JSON string literal (RFC 8259), up to its
/// closing quote: the characters it stands for and what follows the quote.
/// A raw control character below U+0020 or an unknown escape ends it with
/// `None`; so does a `\u` escape of a surrogate half, which this decoding
/// leaves aside.
pub open spec fn json_string_body(r: Seq<char>) -> Option<(Seq<char>, Seq<char>)>
    decreases r.len(),
{
    if r.len() == 0 {
        None
    } else if r[0] == '"' {
        Some((seq![], r.skip(1)))
    } else if r[0] == '\\' {
        if r.len() >= 2 && short_escape(r[1]) is Some {
            match json_string_body(r.skip(2)) {
                Some((d, rest)) => Some((seq![short_escape(r[1])->0] + d, rest)),
                None => None,
            }
        } else if r.len() >= 6 && r[1] == 'u' && hex4(r[2], r[3], r[4], r[5]) is Some && !(0xd800 <= hex4(
            r[2],
            r[3],
            r[4],
            r[5],
        )->0 <= 0xdfff) {
            match json_string_body(r.skip(6)) {
                Some((d, rest)) => Some((seq![hex4(r[2], r[3], r[4], r[5])->0 as char] + d, rest)),
                None => None,
            }
        } else {
            None
        }
    } else if (r[0] as u32) < 0x20 {
        None
    } else {
        match json_string_body(r.skip(1)) {
            Some((d, rest)) => Some((seq![r[0]] + d, rest)),
            None => None,
        }
    }
}

/// The string a JSON string literal stands for: a quote, an inside that
/// decodes, the closing quote, and nothing after it.
pub open spec fn json_string_value(lit: Seq<char>) -> Option<Seq<char>> {
    if lit.len() > 0 && lit[0] == '"' {
        match json_string_body(lit.skip(1)) {
            Some((d, rest)) => if rest.len() == 0 {
                Some(d)
            } else {
                None
            },
            None => None,
        }
    } else {
        None
    }
}

proof fn lemma_hex_lower(d: int)
    requires
        0 <= d < 16,
    ensures
        hex_value(hex_lower(d)) == Some(d),
        !is_control(hex_lower(d)),
        hex_lower(d) != '"' && hex_lower(d) != '\\',
{
}

proof fn lemma_escape_char_decodes(c: char, tail: Seq<char>)
    ensures
        json_string_body(escape_char(c) + tail) == (match json_string_body(tail) {
            Some((d, rest)) => Some((seq![c] + d, rest)),
            None => None::<(Seq<char>, Seq<char>)>,
        }),
        no_controls(escape_char(c)),
{
    let w = escape_char(c) + tail;
    if c == '"' || c == '\\' || c == '\n' || c == '\r' || c == '\t' {
        assert(w.skip(2) =~= tail);
    } else if is_control(c) {
        let v = c as u32 as int;
        assert(v < 0xa0);
        assert(v / 4096 == 0 && (v / 256) % 16 == 0) by (nonlinear_arith)
            requires
                0 <= v < 0xa0,
        ;
        assert(0 <= (v / 16) % 16 < 16 && 0 <= v % 16 < 16) by (nonlinear_arith)
            requires
                0 <= v,
        ;
        assert(16 * ((v / 16) % 16) + v % 16 == v) by (nonlinear_arith)
            requires
                0 <= v < 0xa0,
        ;
        lemma_hex_lower(0);
        lemma_hex_lower((v / 16) % 16);
        lemma_hex_lower(v % 16);
        assert(w[0] == '\\' && w[1] == 'u');
        assert(w[2] == hex_lower(0) && w[3] == hex_lower(0));
        assert(w[4] == hex_lower((v / 16) % 16) && w[5] == hex_lower(v % 16));
        assert(hex4(w[2], w[3], w[4], w[5]) == Some(v));
        assert((v as char) == c);
        assert(w.skip(6) =~= tail);
        assert forall|i: int| 0 <= i < escape_char(c).len() implies !is_control(#[trigger] escape_char(c)[i]) by {}
    } else {
        assert(w[0] == c);
        assert(w.skip(1) =~= tail);
    }
}

proof fn lemma_escape_body_decodes(s: Seq<char>, tail: Seq<char>)
    ensures
        json_string_body(escape_body(s) + seq!['"'] + tail) == Some((s, tail)),
        no_controls(escape_body(s)),
    decreases s.len(),
{
    if s.len() == 0 {
        let w = escape_body(s) + seq!['"'] + tail;
        assert(w =~= seq!['"'] + tail);
        assert(w.skip(1) =~= tail);
        assert(s =~= seq![]);
    } else {
        lemma_escape_body_front(s);
        let c = s[0];
        let rest = s.drop_first();
        lemma_escape_body_decodes(rest, tail);
        let t = escape_body(rest) + seq!['"'] + tail;
        lemma_escape_char_decodes(c, t);
        assert(escape_body(s) + seq!['"'] + tail =~= escape_char(c) + t);
        assert(seq![c] + rest =~= s);
        let e = escape_char(c);
        let b = escape_body(rest);
        assert(escape_body(s) =~= e + b);
        assert forall|i: int| 0 <= i < (e + b).len() implies !is_control(#[trigger] (e + b)[i]) by {
            if i < e.len() {
                assert((e + b)[i] == e[i]);
            } else {
                assert((e + b)[i] == b[i - e.len()]);
            }
        }
    }
}

/// What `json_escape_raw` writes is a JSON string literal for its input:
/// by the JSON grammar it decodes back to exactly that text, it begins and
/// ends with a quote, and no control character stands in it raw.
pub proof fn lemma_json_quoted_is_literal(s: Seq<char>)
    ensures
        json_string_value(json_quoted(s)) == Some(s),
        json_quoted(s)[0] == '"' && json_quoted(s).last() == '"',
        no_controls(json_quoted(s)),
{
    lemma_escape_body_decodes(s, seq![]);
    let q = json_quoted(s);
    let b = escape_body(s);
    assert(q.skip(1) =~= b + seq!['"'] + seq![]);
    assert forall|i: int| 0 <= i < q.len() implies !is_control(#[trigger] q[i]) by {
        if 0 < i < q.len() - 1 {
            assert(q[i] == b[i - 1]);
        }
    }
}

} // verus!
