//! The HTTP side of the desktop bridge: which route a request asks for,
//! how long its body says it is, where the body starts, and the response
//! text. Reading and writing the socket is the caller's.
use vstd::prelude::*;
use vstd::string::StringSliceAdditionalSpecFns;
use vstd::utf8::encode_utf8;
use crate::text::{
    chars_of, find_chars, find_first, push_decimal, decimal, slice_vec,
    string_of, trim, trim_bounds,
};

verus! {

/// The largest request body the bridge takes, in bytes.
pub const MAX_BODY: usize = 262144;

/// A line without the `\r` that ends it, if one does.
pub open spec fn strip_cr(l: Seq<char>) -> Seq<char> {
    if l.len() > 0 && l.last() == '\r' {
        l.drop_last()
    } else {
        l
    }
}

/// The lines of a text, as std's `str::lines` gives them: split after each
/// `\n`, which is dropped together with a `\r` just before it; a last line
/// without `\n` stays as it is; no line at all for the empty text.
pub open spec fn lines_of(s: Seq<char>) -> Seq<Seq<char>>
    decreases s.len(),
{
    if s.len() == 0 {
        seq![]
    } else {
        let i = newline_index(s);
        if 0 <= i < s.len() {
            seq![strip_cr(s.take(i))] + lines_of(s.skip(i + 1))
        } else {
            seq![s]
        }
    }
}

/// The index of the first `\n` in `s`, or its length.
pub open spec fn newline_index(s: Seq<char>) -> int
    decreases s.len(),
{
    if s.len() == 0 {
        0
    } else if s[0] == '\n' {
        0
    } else {
        1 + newline_index(s.drop_first())
    }
}

proof fn lemma_newline_index(s: Seq<char>, e: int)
    requires
        0 <= e <= s.len(),
        e < s.len() ==> s[e] == '\n',
        forall|k: int| 0 <= k < e ==> s[k] != '\n',
    ensures
        newline_index(s) == e,
    decreases e,
{
    if e > 0 {
        lemma_newline_index(s.drop_first(), e - 1);
    }
}

/// The first line of a request (empty when there is none).
pub open spec fn first_line(s: Seq<char>) -> Seq<char> {
    if lines_of(s).len() == 0 {
        seq![]
    } else {
        lines_of(s)[0]
    }
}

/// `p` is a prefix of `s`.
pub open spec fn starts_with(s: Seq<char>, p: Seq<char>) -> bool {
    p.len() <= s.len() && s.take(p.len() as int) == p
}

/// What a request asks for.
#[derive(PartialEq, Eq, Structural, Clone, Copy, Debug)]
pub enum Route {
    /// A CORS preflight: `OPTIONS ...`.
    Options,
    /// `GET /health` or `GET / `.
    Health,
    /// `POST /rpc`.
    Rpc,
    /// Anything else.
    NotFound,
}

/// The route that a request's first line names, checked in the order
/// `OPTIONS`, health, rpc.
pub open spec fn route_of(line: Seq<char>) -> Route {
    if starts_with(line, "OPTIONS "@) {
        Route::Options
    } else if starts_with(line, "GET /health"@) || starts_with(line, "GET / "@) {
        Route::Health
    } else if starts_with(line, "POST /rpc"@) {
        Route::Rpc
    } else {
        Route::NotFound
    }
}

/// ASCII upper-case letters made lower-case, the rest as it is.
pub open spec fn ascii_lower(s: Seq<char>) -> Seq<char> {
    Seq::new(s.len(), |i: int| if 'A' <= s[i] <= 'Z' { ((s[i] as u32) + 32) as char } else { s[i] })
}

/// All characters are ASCII digits.
pub open spec fn all_digits(s: Seq<char>) -> bool {
    forall|i: int| 0 <= i < s.len() ==> '0' <= #[trigger] s[i] <= '9'
}

/// The value of a run of decimal digits.
pub open spec fn digits_value(s: Seq<char>) -> nat
    decreases s.len(),
{
    if s.len() == 0 {
        0
    } else {
        digits_value(s.drop_last()) * 10 + ((s.last() as u32) - 48) as nat
    }
}

/// std's `str::parse::<usize>`: an optional `+`, then one or more digits,
/// whose value fits in `usize`.
pub open spec fn parse_usize(s: Seq<char>) -> Option<nat> {
    parse_digits(if s.len() > 0 && s[0] == '+' { s.drop_first() } else { s })
}

/// One or more digits whose value fits in `usize`.
pub open spec fn parse_digits(d: Seq<char>) -> Option<nat> {
    if d.len() == 0 || !all_digits(d) {
        None
    } else if digits_value(d) > usize::MAX {
        None
    } else {
        Some(digits_value(d))
    }
}

/// The length a `Content-Length:` line declares (0 when its value does not
/// parse); `None` for any other line. The name is matched without case.
pub open spec fn header_length(line: Seq<char>) -> Option<nat> {
    let l = ascii_lower(line);
    if starts_with(l, "content-length:"@) {
        Some(
            match parse_usize(trim(l.skip(15))) {
                Some(v) => v,
                None => 0,
            },
        )
    } else {
        None
    }
}

/// The length that the first `Content-Length:` line among `lines` declares;
/// 0 without one.
pub open spec fn declared_length(lines: Seq<Seq<char>>) -> nat
    decreases lines.len(),
{
    if lines.len() == 0 {
        0
    } else {
        match header_length(lines[0]) {
            Some(v) => v,
            None => declared_length(lines.drop_first()),
        }
    }
}

/// The declared length comes from the first `Content-Length:` line,
/// wherever it stands: when lines `0..k` declare nothing and line `k`
/// declares `n`, the head declares `n`; when no line declares anything, it
/// declares 0.
pub proof fn lemma_declared_length_first_header(lines: Seq<Seq<char>>, k: int, n: nat)
    ensures
        0 <= k < lines.len() && (forall|j: int| 0 <= j < k ==> #[trigger] header_length(lines[j]) is None)
            && header_length(lines[k]) == Some(n) ==> declared_length(lines) == n,
        (forall|j: int| 0 <= j < lines.len() ==> #[trigger] header_length(lines[j]) is None) ==> declared_length(
            lines,
        ) == 0,
    decreases lines.len(),
{
    if lines.len() > 0 {
        let rest = lines.drop_first();
        lemma_declared_length_first_header(rest, k - 1, n);
        if 0 < k < lines.len() && (forall|j: int| 0 <= j < k ==> #[trigger] header_length(lines[j]) is None) {
            assert(header_length(lines[0]) is None);
            assert forall|j: int| 0 <= j < k - 1 implies #[trigger] header_length(rest[j]) is None by {
                assert(rest[j] == lines[j + 1]);
                assert(header_length(lines[j + 1]) is None);
            }
            assert(rest[k - 1] == lines[k]);
        }
        if forall|j: int| 0 <= j < lines.len() ==> #[trigger] header_length(lines[j]) is None {
            assert(header_length(lines[0]) is None);
            assert forall|j: int| 0 <= j < rest.len() implies #[trigger] header_length(rest[j]) is None by {
                assert(rest[j] == lines[j + 1]);
                assert(header_length(lines[j + 1]) is None);
            }
        }
    }
}

/// The numerals the bridge writes read back as the numbers written: the
/// decimal numeral of `n` is a non-empty run of digits, without a leading
/// zero unless `n` is 0, whose value is `n`.
pub proof fn lemma_decimal_reads_back(n: nat)
    ensures
        decimal(n).len() > 0,
        all_digits(decimal(n)),
        digits_value(decimal(n)) == n,
        decimal(n).len() > 1 ==> decimal(n)[0] != '0',
        n >= 10 ==> decimal(n).len() > 1,
    decreases n,
{
    let d = decimal(n);
    if n < 10 {
        assert(d[0] == crate::text::decimal_digit(n));
        assert((crate::text::decimal_digit(n) as u32) == 48 + n);
        assert(d.drop_last() =~= Seq::<char>::empty());
        assert(digits_value(d.drop_last()) == 0);
        assert(digits_value(d) == n);
    } else {
        lemma_decimal_reads_back(n / 10);
        let h = decimal(n / 10);
        assert(d.drop_last() =~= h);
        assert(d.last() == crate::text::decimal_digit(n % 10));
        assert((crate::text::decimal_digit(n % 10) as u32) == 48 + n % 10);
        assert(digits_value(h) == n / 10);
        assert(digits_value(d) == digits_value(h) * 10 + n % 10);
        assert((n / 10) * 10 + n % 10 == n);
        assert forall|i: int| 0 <= i < d.len() implies '0' <= #[trigger] d[i] <= '9' by {
            if i < h.len() {
                assert(d[i] == h[i]);
            }
        }
        assert(d[0] == h[0]);
        if h.len() == 1 {
            assert(n / 10 < 10);
            assert(n / 10 > 0);
            assert((crate::text::decimal_digit(n / 10) as u32) == 48 + n / 10);
        }
    }
}

/// A `Content-Length:` line, in any letter case and with any spaces around
/// its value, declares the number it writes.
pub proof fn lemma_header_declares_number(name: Seq<char>, n: nat)
    requires
        ascii_lower(name) == "content-length:"@,
        n <= usize::MAX,
    ensures
        header_length(name + seq![' '] + decimal(n)) == Some(n),
{
    reveal_strlit("content-length:");
    lemma_decimal_reads_back(n);
    let d = decimal(n);
    let l = name + seq![' '] + d;
    let lo = ascii_lower(l);
    assert(name.len() == 15);
    assert forall|i: int| 0 <= i < 15 implies lo[i] == ascii_lower(name)[i] by {
        assert(l[i] == name[i]);
    }
    assert(lo.take(15) =~= "content-length:"@);
    let rest = lo.skip(15);
    assert forall|i: int| 0 <= i < d.len() implies rest[i + 1] == d[i] by {
        assert(l[16 + i] == d[i]);
        assert('0' <= d[i] <= '9');
    }
    assert(rest[0] == ' ');
    assert(rest.drop_first() =~= d);
    assert(crate::text::trim_start(rest) == crate::text::trim_start(rest.drop_first()));
    assert(!crate::text::is_whitespace(d[0]));
    assert(crate::text::trim_start(d) == d);
    assert(!crate::text::is_whitespace(d.last()));
    assert(crate::text::trim_end(d) == d);
    assert(d[0] != '+');
}

/// The body length the bridge reads: the declared one, at most `MAX_BODY`.
pub open spec fn body_length(req: Seq<char>) -> nat {
    let d = declared_length(lines_of(req));
    if d < MAX_BODY {
        d
    } else {
        MAX_BODY as nat
    }
}

/// Where a line that starts at `from` ends: the index of its `\n`, or the
/// end of the text.
fn line_end(s: &[char], from: usize) -> (r: usize)
    requires
        from <= s.len(),
    ensures
        from <= r <= s.len(),
        r < s.len() ==> s@[r as int] == '\n',
        forall|k: int| from <= k < r ==> s@[k] != '\n',
{
    let mut k = from;
    while k < s.len() && s[k] != '\n'
        invariant
            from <= k <= s.len(),
            forall|j: int| from <= j < k ==> s@[j] != '\n',
        decreases s.len() - k,
    {
        k = k + 1;
    }
    k
}

proof fn lemma_lines_step(s: Seq<char>, e: int)
    requires
        0 <= e <= s.len(),
        s.len() > 0,
        e < s.len() ==> s[e] == '\n',
        forall|k: int| 0 <= k < e ==> s[k] != '\n',
    ensures
        e < s.len() ==> lines_of(s) == seq![strip_cr(s.take(e))] + lines_of(s.skip(e + 1)),
        e == s.len() ==> lines_of(s) == seq![s],
{
    lemma_newline_index(s, e);
}

/// A head is cut into lines at each line end, `\r\n` or `\n`: a line
/// without a line feed, ended by `\r\n`, is the first line as written,
/// followed by the lines of the rest; ended by `\n` alone, likewise.
pub proof fn lemma_lines_cut(a: Seq<char>, b: Seq<char>)
    requires
        !a.contains('\n'),
        a.len() == 0 || a.last() != '\r',
    ensures
        lines_of(a + seq!['\r', '\n'] + b) == seq![a] + lines_of(b),
        lines_of(a + seq!['\n'] + b) == seq![a] + lines_of(b),
{
    let s1 = a + seq!['\r', '\n'] + b;
    assert forall|k: int| 0 <= k < a.len() + 1 implies s1[k] != '\n' by {
        if k < a.len() {
            assert(s1[k] == a[k]);
            assert(a.contains(a[k]));
        }
    }
    lemma_lines_step(s1, a.len() as int + 1);
    assert(s1.take(a.len() as int + 1) =~= a.push('\r'));
    assert(strip_cr(a.push('\r')) =~= a);
    assert(s1.skip(a.len() as int + 2) =~= b);
    let s2 = a + seq!['\n'] + b;
    assert forall|k: int| 0 <= k < a.len() implies s2[k] != '\n' by {
        assert(s2[k] == a[k]);
        assert(a.contains(a[k]));
    }
    lemma_lines_step(s2, a.len() as int);
    assert(s2.take(a.len() as int) =~= a);
    assert(s2.skip(a.len() as int + 1) =~= b);
}

/// The text of the line `s[from..e]` without a last `\r` when `e` ends it
/// with `\n`.
fn line_text(s: &[char], from: usize, e: usize) -> (r: Vec<char>)
    requires
        from <= e <= s.len(),
    ensures
        e < s.len() ==> r@ == strip_cr(s@.subrange(from as int, e as int)),
        e == s.len() ==> r@ == s@.subrange(from as int, e as int),
{
    if e < s.len() && e > from && s[e - 1] == '\r' {
        let r = slice_vec(s, from, e - 1);
        assert(s@.subrange(from as int, e as int).drop_last() =~= r@);
        r
    } else {
        slice_vec(s, from, e)
    }
}

/// The first line of a request.
pub fn request_first_line(req: &str) -> (r: String)
    ensures
        r@ == first_line(req@),
{
    let s = chars_of(req);
    if s.len() == 0 {
        return String::new();
    }
    let e = line_end(&s, 0);
    proof {
        lemma_lines_step(s@, e as int);
        assert(s@.subrange(0, e as int) =~= s@.take(e as int));
        assert(s@.subrange(0, s@.len() as int) =~= s@);
    }
    string_of(&line_text(&s, 0, e))
}

/// The route a request asks for, by its first line.
pub fn request_route(req: &str) -> (r: Route)
    ensures
        r == route_of(first_line(req@)),
{
    let line = request_first_line(req);
    let l = chars_of(line.as_str());
    if has_prefix(&l, "OPTIONS ") {
        Route::Options
    } else if has_prefix(&l, "GET /health") || has_prefix(&l, "GET / ") {
        Route::Health
    } else if has_prefix(&l, "POST /rpc") {
        Route::Rpc
    } else {
        Route::NotFound
    }
}

pub(crate) fn has_prefix(s: &[char], p: &str) -> (r: bool)
    ensures
        r == starts_with(s@, p@),
{
    let pv = chars_of(p);
    if pv.len() > s.len() {
        return false;
    }
    let mut i: usize = 0;
    while i < pv.len()
        invariant
            i <= pv.len() <= s.len(),
            pv@ == p@,
            forall|k: int| 0 <= k < i ==> s@[k] == pv@[k],
        decreases pv.len() - i,
    {
        if s[i] != pv[i] {
            proof {
                if s@.take(pv@.len() as int) == pv@ {
                    assert(s@.take(pv@.len() as int)[i as int] == s@[i as int]);
                }
            }
            return false;
        }
        i = i + 1;
    }
    assert(s@.take(pv@.len() as int) =~= pv@);
    true
}

pub(crate) fn lower_vec(s: &[char]) -> (r: Vec<char>)
    ensures
        r@ == ascii_lower(s@),
{
    let mut r: Vec<char> = Vec::new();
    let mut i: usize = 0;
    while i < s.len()
        invariant
            i <= s.len(),
            r@ == ascii_lower(s@).take(i as int),
        decreases s.len() - i,
    {
        let c = s[i];
        if 'A' <= c && c <= 'Z' {
            r.push(((c as u32) + 32) as u8 as char);
        } else {
            r.push(c);
        }
        assert(r@ =~= ascii_lower(s@).take(i + 1));
        i = i + 1;
    }
    assert(ascii_lower(s@).take(s.len() as int) =~= ascii_lower(s@));
    r
}

pub(crate) proof fn lemma_digits_prefix_grows(s: Seq<char>, k: int)
    requires
        0 <= k <= s.len(),
        all_digits(s),
    ensures
        digits_value(s.take(k)) <= digits_value(s),
    decreases s.len() - k,
{
    if k < s.len() {
        lemma_digits_prefix_grows(s, k + 1);
        assert(s.take(k + 1).drop_last() =~= s.take(k));
        let a = digits_value(s.take(k));
        assert(a <= a * 10) by (nonlinear_arith);
    } else {
        assert(s.take(k) =~= s);
    }
}

/// std's `str::parse::<usize>` on `s[from..to]`.
pub fn parse_usize_at(s: &[char], from: usize, to: usize) -> (r: Option<usize>)
    requires
        from <= to <= s.len(),
    ensures
        match r {
            Some(x) => parse_usize(s@.subrange(from as int, to as int)) == Some(x as nat),
            None => parse_usize(s@.subrange(from as int, to as int)) is None,
        },
{
    let ghost t = s@.subrange(from as int, to as int);
    if from < to && s[from] == '+' {
        assert(t.drop_first() =~= s@.subrange(from + 1, to as int));
        parse_digits_at(s, from + 1, to)
    } else {
        parse_digits_at(s, from, to)
    }
}

/// One or more digits in `s[a..to]`, as a `usize` when the value fits.
fn parse_digits_at(s: &[char], a: usize, to: usize) -> (r: Option<usize>)
    requires
        a <= to <= s.len(),
    ensures
        match r {
            Some(x) => parse_digits(s@.subrange(a as int, to as int)) == Some(x as nat),
            None => parse_digits(s@.subrange(a as int, to as int)) is None,
        },
{
    let ghost d = s@.subrange(a as int, to as int);
    if a == to {
        return None;
    }
    let mut k = a;
    while k < to
        invariant
            a <= k <= to <= s.len(),
            d == s@.subrange(a as int, to as int),
            forall|j: int| a <= j < k ==> '0' <= #[trigger] s@[j] <= '9',
        decreases to - k,
    {
        if !('0' <= s[k] && s[k] <= '9') {
            assert(d[k - a] == s@[k as int]);
            return None;
        }
        k = k + 1;
    }
    assert(all_digits(d)) by {
        assert forall|i: int| 0 <= i < d.len() implies '0' <= #[trigger] d[i] <= '9' by {
            assert(d[i] == s@[a + i]);
        }
    }
    let mut v: usize = 0;
    let mut i = a;
    assert(d.take(0) =~= Seq::<char>::empty());
    while i < to
        invariant
            a <= i <= to <= s.len(),
            d == s@.subrange(a as int, to as int),
            all_digits(d),
            v as nat == digits_value(d.take(i - a)),
        decreases to - i,
    {
        proof {
            assert(d[i - a] == s@[i as int]);
            assert(d.take(i - a + 1).drop_last() =~= d.take(i - a));
            assert(d.take(i - a + 1).last() == s@[i as int]);
        }
        let dg = (s[i] as u32 - 48) as usize;
        if v > (usize::MAX - dg) / 10 {
            proof {
                assert(digits_value(d.take(i - a + 1)) == v * 10 + dg);
                assert(v * 10 + dg > usize::MAX) by (nonlinear_arith)
                    requires v > (usize::MAX - dg) / 10, dg <= 9;
                lemma_digits_prefix_grows(d, i - a + 1);
            }
            return None;
        }
        assert(v * 10 + dg <= usize::MAX) by (nonlinear_arith)
            requires v <= (usize::MAX - dg) / 10, dg <= 9;
        v = v * 10 + dg;
        i = i + 1;
    }
    assert(d.take(to - a) =~= d);
    Some(v)
}

/// The length a header line declares, when it is a `Content-Length:` line.
fn header_length_exec(line: &[char]) -> (r: Option<usize>)
    ensures
        match r {
            Some(x) => header_length(line@) == Some(x as nat),
            None => header_length(line@) is None,
        },
{
    let l = lower_vec(line);
    if !has_prefix(&l, "content-length:") {
        return None;
    }
    proof {
        reveal_strlit("content-length:");
    }
    let (x, y) = trim_bounds(&l, 15, l.len());
    assert(l@.subrange(15, l@.len() as int) =~= l@.skip(15));
    match parse_usize_at(&l, x, y) {
        Some(v) => Some(v),
        None => Some(0),
    }
}

fn declared_from(s: &[char], from: usize) -> (r: usize)
    requires
        from <= s.len(),
    ensures
        r as nat == declared_length(lines_of(s@.skip(from as int))),
    decreases s.len() - from,
{
    let ghost rest = s@.skip(from as int);
    if from == s.len() {
        assert(rest.len() == 0);
        return 0;
    }
    let e = line_end(s, from);
    proof {
        assert forall|k: int| 0 <= k < e - from implies rest[k] != '\n' by {
            assert(rest[k] == s@[from + k]);
        }
        if e < s.len() {
            assert(rest[e - from] == s@[e as int]);
        }
        lemma_lines_step(rest, e - from);
        assert(rest.take(e - from) =~= s@.subrange(from as int, e as int));
        if e < s.len() {
            assert(rest.skip(e - from + 1) =~= s@.skip(e + 1));
        }
        if e == s.len() {
            assert(rest =~= s@.subrange(from as int, e as int));
        }
    }
    let line = line_text(s, from, e);
    assert(lines_of(rest).len() > 0 && lines_of(rest)[0] == line@);
    match header_length_exec(&line) {
        Some(v) => {
            assert(declared_length(lines_of(rest)) == v as nat);
            v
        },
        None => {
            assert(declared_length(lines_of(rest)) == declared_length(lines_of(rest).drop_first()));
            if e == s.len() {
                assert(lines_of(rest).drop_first().len() == 0);
                0
            } else {
                assert(lines_of(rest).drop_first() =~= lines_of(s@.skip(e + 1)));
                declared_from(s, e + 1)
            }
        },
    }
}

/// The body length the bridge reads for a request: what its first
/// `Content-Length:` line declares (0 without one, or when the value does not
/// parse), at most `MAX_BODY`.
pub fn content_length(req: &str) -> (n: usize)
    ensures
        n as nat == body_length(req@),
{
    let s = chars_of(req);
    assert(s@.skip(0) =~= s@);
    let d = declared_from(&s, 0);
    if d < MAX_BODY {
        d
    } else {
        MAX_BODY
    }
}

/// `\r\n\r\n`, which ends the head of a request.
pub open spec fn head_end() -> Seq<char> {
    seq!['\r', '\n', '\r', '\n']
}

/// The part of the body that came with the head: everything after the first
/// `\r\n\r\n`, nothing when there is none.
pub open spec fn initial_body_of(req: Seq<char>) -> Seq<char> {
    match find_first(req, head_end()) {
        Some(i) => req.skip(i + 4),
        None => seq![],
    }
}

/// The body text that arrived together with the request head.
pub fn initial_body(req: &str) -> (r: String)
    ensures
        r@ == initial_body_of(req@),
{
    let s = chars_of(req);
    let sep: Vec<char> = vec!['\r', '\n', '\r', '\n'];
    assert(sep@ =~= head_end());
    match find_chars(&s, &sep) {
        Some(i) => {
            let v = slice_vec(&s, i + 4, s.len());
            assert(v@ =~= s@.skip(i + 4));
            string_of(&v)
        },
        None => String::new(),
    }
}

/// Cuts the body that was read to the declared length (when one was
/// declared) and refuses one longer than `MAX_BODY` with the text of a 413
/// answer.
pub fn finish_payload(payload: Vec<u8>, content_len: usize) -> (r: Result<Vec<u8>, String>)
    ensures
        ({
            let cut = if content_len > 0 && payload@.len() > content_len {
                payload@.take(content_len as int)
            } else {
                payload@
            };
            if cut.len() > MAX_BODY {
                r matches Err(m) && m@ == "{\"ok\":false,\"error\":\"body too large\"}"@
            } else {
                r matches Ok(p) && p@ == cut
            }
        }),
{
    let mut payload = payload;
    if content_len > 0 {
        payload.truncate(content_len);
    }
    if payload.len() > MAX_BODY {
        Err(String::from_str("{\"ok\":false,\"error\":\"body too large\"}"))
    } else {
        Ok(payload)
    }
}

/// The full response text for a status line and a JSON body.
pub open spec fn response_text(status: Seq<char>, body: Seq<char>) -> Seq<char> {
    "HTTP/1.1 "@ + status + "\r\nContent-Type: application/json\r\nContent-Length: "@
        + decimal(encode_utf8(body).len())
        + "\r\nConnection: close\r\nAccess-Control-Allow-Origin: *\r\nAccess-Control-Allow-Methods: GET, POST, OPTIONS\r\nAccess-Control-Allow-Headers: Content-Type\r\n\r\n"@
        + body
}

/// The response text: status line, JSON and CORS headers, the body's
/// length in bytes, then the body.
pub fn http_response(status: &str, body: &str) -> (r: String)
    ensures
        r@ == response_text(status@, body@),
{
    let mut r = String::from_str("HTTP/1.1 ");
    r.append(status);
    r.append("\r\nContent-Type: application/json\r\nContent-Length: ");
    push_decimal(&mut r, body.as_bytes().len());
    r.append("\r\nConnection: close\r\nAccess-Control-Allow-Origin: *\r\nAccess-Control-Allow-Methods: GET, POST, OPTIONS\r\nAccess-Control-Allow-Headers: Content-Type\r\n\r\n");
    r.append(body);
    assert(r@ =~= response_text(status@, body@));
    r
}

/// The response for a route that needs no RPC: an empty 204 for `OPTIONS`,
/// the health body with 200, a 404 naming the two routes; `None` for `/rpc`.
pub fn route_response(route: Route, health_body: &str) -> (r: Option<String>)
    ensures
        match route {
            Route::Options => r matches Some(t) && t@ == response_text("204 No Content"@, seq![]),
            Route::Health => r matches Some(t) && t@ == response_text("200 OK"@, health_body@),
            Route::NotFound => r matches Some(t) && t@ == response_text(
                "404 Not Found"@,
                "{\"ok\":false,\"error\":\"use GET /health or POST /rpc\"}"@,
            ),
            Route::Rpc => r is None,
        },
{
    match route {
        Route::Options => {
            let t = http_response("204 No Content", "");
            proof {
                reveal_strlit("");
            }
            Some(t)
        },
        Route::Health => Some(http_response("200 OK", health_body)),
        Route::NotFound => Some(http_response("404 Not Found", "{\"ok\":false,\"error\":\"use GET /health or POST /rpc\"}")),
        Route::Rpc => None,
    }
}

} // verus!
