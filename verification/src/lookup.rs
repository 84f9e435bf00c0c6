//! Choices the bridge makes by name: which SharedObject a name means, which
//! trait of an object a property or method name means, which names a
//! `find` keyword list matches, and how a numeric array index reads.
use vstd::prelude::*;
use crate::text::{decimal, chars_of, contains_seq, find_chars, slice_vec, string_of, trim, trim_bounds, str_eq};
use crate::http::{ascii_lower, all_digits, digits_value, lower_vec, lemma_digits_prefix_grows};
use crate::paths::char_index;

verus! {

/// `p` is a suffix of `s` (std's `str::ends_with`).
pub open spec fn ends_with(s: Seq<char>, p: Seq<char>) -> bool {
    p.len() <= s.len() && s.skip(s.len() - p.len()) == p
}

fn has_suffix(s: &[char], p: &[char]) -> (r: bool)
    ensures
        r == ends_with(s@, p@),
{
    if p.len() > s.len() {
        return false;
    }
    let off = s.len() - p.len();
    let mut i: usize = 0;
    while i < p.len()
        invariant
            i <= p.len(),
            off + p.len() == s.len(),
            forall|k: int| 0 <= k < i ==> s@[off + k] == p@[k],
        decreases p.len() - i,
    {
        if s[off + i] != p[i] {
            proof {
                if s@.skip(off as int) == p@ {
                    assert(s@.skip(off as int)[i as int] == s@[off + i]);
                }
            }
            return false;
        }
        i = i + 1;
    }
    assert(s@.skip(off as int) =~= p@);
    true
}

/// A SharedObject key that a looked-up name may mean: the name itself, or a
/// key that ends with it (or with `/` and it).
pub open spec fn so_candidate(k: Seq<char>, name: Seq<char>) -> bool {
    k == name || ends_with(k, name) || ends_with(k, seq!['/'] + name)
}

/// The length of a key in bytes, as its UTF-8 encoding counts them.
pub open spec fn byte_len(k: Seq<char>) -> nat {
    vstd::utf8::encode_utf8(k).len()
}

/// Among the first `n` keys, the candidate of greatest length in bytes,
/// the later one among equally long candidates.
pub open spec fn best_so(keys: Seq<Seq<char>>, name: Seq<char>, n: int) -> Option<int>
    decreases n,
{
    if n <= 0 {
        None
    } else {
        let b = best_so(keys, name, n - 1);
        if so_candidate(keys[n - 1], name) && (match b {
            Some(j) => byte_len(keys[n - 1]) >= byte_len(keys[j]),
            None => true,
        }) {
            Some(n - 1)
        } else {
            b
        }
    }
}

/// The first key equal to `name`.
pub open spec fn first_equal(keys: Seq<Seq<char>>, name: Seq<char>, n: int) -> Option<int>
    decreases n,
{
    if n <= 0 {
        None
    } else {
        match first_equal(keys, name, n - 1) {
            Some(j) => Some(j),
            None => if keys[n - 1] == name {
                Some(n - 1)
            } else {
                None
            },
        }
    }
}

proof fn lemma_first_equal_stable(keys: Seq<Seq<char>>, name: Seq<char>, m: int, n: int)
    requires
        0 <= m <= n,
        first_equal(keys, name, m) is Some,
    ensures
        first_equal(keys, name, n) == first_equal(keys, name, m),
    decreases n - m,
{
    if m < n {
        lemma_first_equal_stable(keys, name, m, n - 1);
    }
}

proof fn lemma_first_containing_stable(keys: Seq<Seq<char>>, name: Seq<char>, m: int, n: int)
    requires
        0 <= m <= n,
        first_containing(keys, name, m) is Some,
    ensures
        first_containing(keys, name, n) == first_containing(keys, name, m),
    decreases n - m,
{
    if m < n {
        lemma_first_containing_stable(keys, name, m, n - 1);
    }
}

/// Why no SharedObject was found for a name.
#[derive(PartialEq, Eq, Structural, Clone, Copy, Debug)]
pub enum SoLookupError {
    /// The name is empty once trimmed.
    NameEmpty,
    /// No loaded SharedObject goes by that name.
    NotLoaded,
}

/// The key views of a list of keys.
pub open spec fn key_views(keys: Seq<String>) -> Seq<Seq<char>> {
    Seq::new(keys.len(), |i: int| keys[i]@)
}

/// Which loaded SharedObject a name means, by index into `keys` (in the
/// order the player lists them): the name is trimmed; an exact key wins;
/// else the key longest in bytes that ends with the name, the last of
/// equally long ones.
pub fn pick_so(keys: &[String], name: &str) -> (r: Result<usize, SoLookupError>)
    ensures
        ({
            let n = trim(name@);
            let ks = key_views(keys@);
            if n.len() == 0 {
                r == Err::<usize, SoLookupError>(SoLookupError::NameEmpty)
            } else {
                match first_equal(ks, n, ks.len() as int) {
                    Some(j) => r == Ok::<usize, SoLookupError>(j as usize),
                    None => match best_so(ks, n, ks.len() as int) {
                        Some(j) => r == Ok::<usize, SoLookupError>(j as usize),
                        None => r == Err::<usize, SoLookupError>(SoLookupError::NotLoaded),
                    },
                }
            }
        }),
{
    let ghost ks = key_views(keys@);
    let all = chars_of(name);
    let (a, b) = trim_bounds(&all, 0, all.len());
    assert(all@.subrange(0, all@.len() as int) =~= all@);
    let n = slice_vec(&all, a, b);
    if n.len() == 0 {
        return Err(SoLookupError::NameEmpty);
    }
    let mut slash_n: Vec<char> = Vec::new();
    slash_n.push('/');
    crate::text::push_all(&mut slash_n, &n);
    let mut i: usize = 0;
    while i < keys.len()
        invariant
            i <= keys@.len(),
            ks == key_views(keys@),
            n@ == trim(name@),
            n@.len() > 0,
            first_equal(ks, n@, i as int) is None,
        decreases keys@.len() - i,
    {
        let k = chars_of(keys[i].as_str());
        assert(k@ == ks[i as int]);
        if chars_equal(&k, &n) {
            proof {
                assert(first_equal(ks, n@, i + 1) == Some(i as int));
                lemma_first_equal_stable(ks, n@, i + 1, ks.len() as int);
            }
            return Ok(i);
        }
        i = i + 1;
    }
    assert(first_equal(ks, n@, ks.len() as int) is None);
    let mut best: Option<usize> = None;
    let mut best_len: usize = 0;
    let mut j: usize = 0;
    while j < keys.len()
        invariant
            j <= keys@.len(),
            ks == key_views(keys@),
            slash_n@ == seq!['/'] + n@,
            n@ == trim(name@),
            n@.len() > 0,
            first_equal(ks, n@, ks.len() as int) is None,
            match best_so(ks, n@, j as int) {
                Some(x) => 0 <= x < j && best == Some(x as usize) && best_len == byte_len(ks[x]),
                None => best is None,
            },
        decreases keys@.len() - j,
    {
        let k = chars_of(keys[j].as_str());
        assert(k@ == ks[j as int]);
        let cand = chars_equal(&k, &n) || has_suffix(&k, &n) || has_suffix(&k, &slash_n);
        let k_len = keys[j].as_str().as_bytes().len();
        if cand && (best.is_none() || k_len >= best_len) {
            best = Some(j);
            best_len = k_len;
        }
        j = j + 1;
    }
    match best {
        Some(x) => Ok(x),
        None => Err(SoLookupError::NotLoaded),
    }
}

fn chars_equal(a: &[char], b: &[char]) -> (r: bool)
    ensures
        r == (a@ == b@),
{
    if a.len() != b.len() {
        return false;
    }
    let mut i: usize = 0;
    while i < a.len()
        invariant
            i <= a.len(),
            a.len() == b.len(),
            forall|k: int| 0 <= k < i ==> a@[k] == b@[k],
        decreases a.len() - i,
    {
        if a[i] != b[i] {
            assert(a@[i as int] != b@[i as int]);
            return false;
        }
        i = i + 1;
    }
    assert(a@ =~= b@);
    true
}

/// The first key that holds `name` anywhere.
pub open spec fn first_containing(keys: Seq<Seq<char>>, name: Seq<char>, n: int) -> Option<int>
    decreases n,
{
    if n <= 0 {
        None
    } else {
        match first_containing(keys, name, n - 1) {
            Some(j) => Some(j),
            None => if ends_with(keys[n - 1], name) || contains_seq(keys[n - 1], name) {
                Some(n - 1)
            } else {
                None
            },
        }
    }
}

/// Which SharedObject `bind_so` means (the name taken as it stands): an
/// exact key, else the first key that ends with or holds the name.
pub fn pick_so_loose(keys: &[String], name: &str) -> (r: Option<usize>)
    ensures
        ({
            let ks = key_views(keys@);
            match first_equal(ks, name@, ks.len() as int) {
                Some(j) => r == Some(j as usize),
                None => match first_containing(ks, name@, ks.len() as int) {
                    Some(j) => r == Some(j as usize),
                    None => r is None,
                },
            }
        }),
{
    let ghost ks = key_views(keys@);
    let n = chars_of(name);
    let mut i: usize = 0;
    while i < keys.len()
        invariant
            i <= keys@.len(),
            ks == key_views(keys@),
            n@ == name@,
            first_equal(ks, n@, i as int) is None,
        decreases keys@.len() - i,
    {
        let k = chars_of(keys[i].as_str());
        assert(k@ == ks[i as int]);
        if chars_equal(&k, &n) {
            proof {
                assert(first_equal(ks, n@, i + 1) == Some(i as int));
                lemma_first_equal_stable(ks, n@, i + 1, ks.len() as int);
            }
            return Some(i);
        }
        i = i + 1;
    }
    let mut j: usize = 0;
    while j < keys.len()
        invariant
            j <= keys@.len(),
            ks == key_views(keys@),
            n@ == name@,
            first_equal(ks, n@, ks.len() as int) is None,
            first_containing(ks, n@, j as int) is None,
        decreases keys@.len() - j,
    {
        let k = chars_of(keys[j].as_str());
        assert(k@ == ks[j as int]);
        if has_suffix(&k, &n) || find_chars(&k, &n).is_some() {
            proof {
                assert(first_containing(ks, n@, j + 1) == Some(j as int));
                lemma_first_containing_stable(ks, n@, j + 1, ks.len() as int);
            }
            return Some(j);
        }
        j = j + 1;
    }
    None
}

/// The pieces of `s` between commas, empty ones kept (std's `split(',')`).
pub open spec fn comma_pieces(s: Seq<char>) -> Seq<Seq<char>>
    decreases s.len(),
{
    let i = char_index(s, ',');
    if 0 <= i < s.len() {
        seq![s.take(i)] + comma_pieces(s.skip(i + 1))
    } else {
        seq![s]
    }
}

/// The keywords of a `find` list: pieces between commas, trimmed and made
/// ASCII lower-case, empty ones left out.
pub open spec fn keywords_of(pieces: Seq<Seq<char>>) -> Seq<Seq<char>>
    decreases pieces.len(),
{
    if pieces.len() == 0 {
        seq![]
    } else {
        let k = ascii_lower(trim(pieces[0]));
        (if k.len() > 0 { seq![k] } else { seq![] }) + keywords_of(pieces.drop_first())
    }
}

/// A name matches when its ASCII lower-case form holds one of the keywords.
pub open spec fn matches_keywords(name: Seq<char>, kws: Seq<Seq<char>>) -> bool {
    exists|i: int| 0 <= i < kws.len() && contains_seq(ascii_lower(name), #[trigger] kws[i])
}

fn keywords_from(s: &[char], from: usize, out: &mut Vec<String>)
    requires
        from <= s.len(),
    ensures
        final(out)@.len() == old(out)@.len() + keywords_of(comma_pieces(s@.skip(from as int))).len(),
        forall|i: int| 0 <= i < old(out)@.len() ==> (#[trigger] final(out)@[i]) == old(out)@[i],
        forall|i: int| 0 <= i < keywords_of(comma_pieces(s@.skip(from as int))).len() ==>
            (#[trigger] final(out)@[old(out)@.len() + i])@ == keywords_of(comma_pieces(s@.skip(from as int)))[i],
    decreases s.len() - from,
{
    let ghost rest = s@.skip(from as int);
    let mut e = from;
    while e < s.len() && s[e] != ','
        invariant
            from <= e <= s.len(),
            forall|j: int| from <= j < e ==> s@[j] != ',',
        decreases s.len() - e,
    {
        e = e + 1;
    }
    proof {
        assert forall|j: int| 0 <= j < e - from implies rest[j] != ',' by {
            assert(rest[j] == s@[from + j]);
        }
        if e < s.len() {
            assert(rest[e - from] == s@[e as int]);
        }
        crate::paths::lemma_char_index(rest, ',', e - from);
    }
    let (x, y) = trim_bounds(s, from, e);
    let piece = slice_vec(s, x, y);
    let kw = lower_vec(&piece);
    let ghost o0 = out@;
    let ghost pieces = comma_pieces(rest);
    proof {
        assert(rest.take(e - from) =~= s@.subrange(from as int, e as int));
        if e < s.len() {
            assert(rest.skip(e - from + 1) =~= s@.skip(e + 1));
            assert(pieces == seq![rest.take(e - from)] + comma_pieces(s@.skip(e + 1)));
            assert(pieces.drop_first() =~= comma_pieces(s@.skip(e + 1)));
        } else {
            assert(rest =~= s@.subrange(from as int, e as int));
            assert(pieces.drop_first() =~= Seq::<Seq<char>>::empty());
        }
        assert(pieces[0] == s@.subrange(from as int, e as int));
    }
    if kw.len() > 0 {
        out.push(string_of(&kw));
    }
    let ghost o1 = out@;
    if e < s.len() {
        keywords_from(s, e + 1, out);
    }
    proof {
        let ks = keywords_of(pieces);
        let tail = keywords_of(pieces.drop_first());
        let hd = if kw@.len() > 0 { seq![kw@] } else { Seq::<Seq<char>>::empty() };
        assert(ks == hd + tail);
        if e == s.len() {
            assert(tail.len() == 0);
        }
        assert forall|i: int| 0 <= i < ks.len() implies (#[trigger] out@[o0.len() + i])@ == ks[i] by {
            if i < hd.len() {
                assert(out@[o0.len() + i] == o1[o0.len() + i]);
            } else {
                assert(out@[o1.len() + (i - hd.len())]@ == tail[i - hd.len()]);
            }
        }
        assert forall|i: int| 0 <= i < o0.len() implies (#[trigger] out@[i]) == o0[i] by {
            assert(out@[i] == o1[i]);
        }
    }
}

/// The keywords of a `find` list: pieces between commas, trimmed and made
/// ASCII lower-case, empty ones left out.
pub fn parse_keywords(s: &str) -> (r: Vec<String>)
    ensures
        r@.len() == keywords_of(comma_pieces(s@)).len(),
        forall|i: int| 0 <= i < r@.len() ==> (#[trigger] r@[i])@ == keywords_of(comma_pieces(s@))[i],
{
    let v = chars_of(s);
    let mut out: Vec<String> = Vec::new();
    assert(v@.skip(0) =~= v@);
    keywords_from(&v, 0, &mut out);
    proof {
        assert forall|i: int| 0 <= i < out@.len() implies (#[trigger] out@[i])@ == keywords_of(comma_pieces(s@))[i] by {
            assert(out@[0 + i] == out@[i]);
        }
    }
    out
}

/// Whether a name matches a keyword list: its ASCII lower-case form holds
/// one of the keywords.
pub fn name_matches(name: &str, kws: &[String]) -> (r: bool)
    ensures
        r == matches_keywords(name@, Seq::new(kws@.len(), |i: int| kws@[i]@)),
{
    let ghost kv = Seq::new(kws@.len(), |i: int| kws@[i]@);
    let n = lower_vec(&chars_of(name));
    let mut i: usize = 0;
    while i < kws.len()
        invariant
            i <= kws@.len(),
            kv == Seq::new(kws@.len(), |i: int| kws@[i]@),
            n@ == ascii_lower(name@),
            forall|j: int| 0 <= j < i ==> !contains_seq(ascii_lower(name@), #[trigger] kv[j]),
        decreases kws@.len() - i,
    {
        let k = chars_of(kws[i].as_str());
        if find_chars(&n, &k).is_some() {
            assert(contains_seq(ascii_lower(name@), kv[i as int]));
            return true;
        }
        i = i + 1;
    }
    false
}

/// What a trait of an object is, as the player resolves it.
#[derive(PartialEq, Eq, Structural, Clone, Copy, Debug)]
pub enum PropKind {
    Slot(usize),
    ConstSlot(usize),
    Method(usize),
    Virtual(Option<usize>, Option<usize>),
}

/// The local names of a trait list.
pub open spec fn trait_names(traits: Seq<(String, PropKind)>) -> Seq<Seq<char>> {
    Seq::new(traits.len(), |i: int| traits[i].0@)
}

/// The slot of the first trait named `name` that is a slot or a constant.
pub open spec fn first_slot_named(traits: Seq<(String, PropKind)>, name: Seq<char>, n: int) -> Option<usize>
    decreases n,
{
    if n <= 0 {
        None
    } else {
        match first_slot_named(traits, name, n - 1) {
            Some(s) => Some(s),
            None => if traits[n - 1].0@ == name {
                match traits[n - 1].1 {
                    PropKind::Slot(s) => Some(s),
                    PropKind::ConstSlot(s) => Some(s),
                    _ => None,
                }
            } else {
                None
            },
        }
    }
}

/// The dispatch id of the first trait named `name` that is a method.
pub open spec fn first_method_named(traits: Seq<(String, PropKind)>, name: Seq<char>, n: int) -> Option<usize>
    decreases n,
{
    if n <= 0 {
        None
    } else {
        match first_method_named(traits, name, n - 1) {
            Some(s) => Some(s),
            None => if traits[n - 1].0@ == name {
                match traits[n - 1].1 {
                    PropKind::Method(d) => Some(d),
                    _ => None,
                }
            } else {
                None
            },
        }
    }
}

proof fn lemma_first_slot_stable(traits: Seq<(String, PropKind)>, name: Seq<char>, m: int, n: int)
    requires
        0 <= m <= n,
        first_slot_named(traits, name, m) is Some,
    ensures
        first_slot_named(traits, name, n) == first_slot_named(traits, name, m),
    decreases n - m,
{
    if m < n {
        lemma_first_slot_stable(traits, name, m, n - 1);
    }
}

proof fn lemma_first_method_stable(traits: Seq<(String, PropKind)>, name: Seq<char>, m: int, n: int)
    requires
        0 <= m <= n,
        first_method_named(traits, name, m) is Some,
    ensures
        first_method_named(traits, name, n) == first_method_named(traits, name, m),
    decreases n - m,
{
    if m < n {
        lemma_first_method_stable(traits, name, m, n - 1);
    }
}

/// The slot a property name reads from when the public lookup fails: the
/// first slot or constant of that local name (getters and methods are
/// passed over, never called).
pub fn find_slot_named(traits: &[(String, PropKind)], name: &str) -> (r: Option<usize>)
    ensures
        r == first_slot_named(traits@, name@, traits@.len() as int),
{
    let mut i: usize = 0;
    while i < traits.len()
        invariant
            i <= traits@.len(),
            first_slot_named(traits@, name@, i as int) is None,
        decreases traits@.len() - i,
    {
        if str_eq(traits[i].0.as_str(), name) {
            match traits[i].1 {
                PropKind::Slot(s) | PropKind::ConstSlot(s) => {
                    proof {
                        lemma_first_slot_stable(traits@, name@, i + 1, traits@.len() as int);
                    }
                    return Some(s);
                },
                _ => {},
            }
        }
        i = i + 1;
    }
    None
}

/// The method a name calls when the public call fails: the first method of
/// that local name.
pub fn find_method_named(traits: &[(String, PropKind)], name: &str) -> (r: Option<usize>)
    ensures
        r == first_method_named(traits@, name@, traits@.len() as int),
{
    let mut i: usize = 0;
    while i < traits.len()
        invariant
            i <= traits@.len(),
            first_method_named(traits@, name@, i as int) is None,
        decreases traits@.len() - i,
    {
        if str_eq(traits[i].0.as_str(), name) {
            match traits[i].1 {
                PropKind::Method(d) => {
                    proof {
                        lemma_first_method_stable(traits@, name@, i + 1, traits@.len() as int);
                    }
                    return Some(d);
                },
                _ => {},
            }
        }
        i = i + 1;
    }
    None
}

/// How a trait that is not the written field, but near it, is reported.
pub open spec fn near_entry(local: Seq<char>, k: PropKind, field: Seq<char>) -> Option<Seq<char>> {
    if local == field {
        match k {
            PropKind::Method(_) => Some(local + "=Method"@),
            PropKind::Virtual(_, _) => Some(local + "=Virtual"@),
            _ => None,
        }
    } else if contains_seq(local, field) || contains_seq(field, local) {
        Some(
            local + match k {
                PropKind::Slot(s) => "=Slot#"@ + decimal(s as nat),
                PropKind::ConstSlot(s) => "=Const#"@ + decimal(s as nat),
                PropKind::Method(_) => "=Method"@,
                PropKind::Virtual(_, _) => "=Virtual"@,
            },
        )
    } else {
        None
    }
}

/// The near entries of the first `n` traits, in order.
pub open spec fn near_entries(traits: Seq<(String, PropKind)>, field: Seq<char>, n: int) -> Seq<Seq<char>>
    decreases n,
{
    if n <= 0 {
        seq![]
    } else {
        near_entries(traits, field, n - 1) + match near_entry(traits[n - 1].0@, traits[n - 1].1, field) {
            Some(e) => seq![e],
            None => seq![],
        }
    }
}

fn near_entry_exec(local: &String, k: PropKind, field: &str) -> (r: Option<String>)
    ensures
        match near_entry(local@, k, field@) {
            Some(e) => r matches Some(x) && x@ == e,
            None => r is None,
        },
{
    let lv = chars_of(local.as_str());
    let fv = chars_of(field);
    if chars_equal(&lv, &fv) {
        match k {
            PropKind::Method(_) => {
                let mut s = local.clone();
                s.append("=Method");
                Some(s)
            },
            PropKind::Virtual(_, _) => {
                let mut s = local.clone();
                s.append("=Virtual");
                Some(s)
            },
            _ => None,
        }
    } else if find_chars(&lv, &fv).is_some() || find_chars(&fv, &lv).is_some() {
        let mut s = local.clone();
        match k {
            PropKind::Slot(id) => {
                s.append("=Slot#");
                crate::text::push_decimal(&mut s, id);
            },
            PropKind::ConstSlot(id) => {
                s.append("=Const#");
                crate::text::push_decimal(&mut s, id);
            },
            PropKind::Method(_) => s.append("=Method"),
            PropKind::Virtual(_, _) => s.append("=Virtual"),
        }
        proof {
            match k {
                PropKind::Slot(id) => assert(s@ =~= local@ + ("=Slot#"@ + decimal(id as nat))),
                PropKind::ConstSlot(id) => assert(s@ =~= local@ + ("=Const#"@ + decimal(id as nat))),
                _ => {},
            }
        }
        Some(s)
    } else {
        None
    }
}

/// The slot `set_slot` writes: the first slot or constant whose local name
/// is the field (private ones too). Without one, the traits that come near,
/// in order: same-named methods and getters, and traits whose name holds
/// the field or is held by it.
pub fn find_slot_for_write(traits: &[(String, PropKind)], field: &str) -> (r: Result<usize, Vec<String>>)
    ensures
        match first_slot_named(traits@, field@, traits@.len() as int) {
            Some(s) => r == Ok::<usize, Vec<String>>(s),
            None => r matches Err(near) && near@.len() == near_entries(traits@, field@, traits@.len() as int).len()
                && forall|i: int| 0 <= i < near@.len() ==>
                    (#[trigger] near@[i])@ == near_entries(traits@, field@, traits@.len() as int)[i],
        },
{
    let mut near: Vec<String> = Vec::new();
    let mut i: usize = 0;
    while i < traits.len()
        invariant
            i <= traits@.len(),
            first_slot_named(traits@, field@, i as int) is None,
            near@.len() == near_entries(traits@, field@, i as int).len(),
            forall|j: int| 0 <= j < near@.len() ==> (#[trigger] near@[j])@ == near_entries(traits@, field@, i as int)[j],
        decreases traits@.len() - i,
    {
        if str_eq(traits[i].0.as_str(), field) {
            match traits[i].1 {
                PropKind::Slot(s) | PropKind::ConstSlot(s) => {
                    proof {
                        lemma_first_slot_stable(traits@, field@, i + 1, traits@.len() as int);
                    }
                    return Ok(s);
                },
                _ => {},
            }
        }
        let ghost before = near@;
        match near_entry_exec(&traits[i].0, traits[i].1, field) {
            Some(e) => near.push(e),
            None => {},
        }
        proof {
            let want = near_entries(traits@, field@, i + 1);
            assert forall|j: int| 0 <= j < near@.len() implies (#[trigger] near@[j])@ == want[j] by {
                if j < before.len() {
                    assert(near@[j] == before[j]);
                }
            }
        }
        i = i + 1;
    }
    Err(near)
}

/// std's `str::parse::<i32>`: an optional sign, then one or more digits,
/// whose value fits in `i32`.
pub open spec fn parse_i32(s: Seq<char>) -> Option<int> {
    let neg = s.len() > 0 && s[0] == '-';
    let d = if s.len() > 0 && (s[0] == '-' || s[0] == '+') { s.drop_first() } else { s };
    if d.len() == 0 || !all_digits(d) {
        None
    } else if neg {
        if digits_value(d) <= 2147483648 {
            Some(-digits_value(d))
        } else {
            None
        }
    } else if digits_value(d) <= 2147483647 {
        Some(digits_value(d) as int)
    } else {
        None
    }
}

/// A numeric array index in a property walk: the part read as an `i32`,
/// then taken as a `usize` (a negative index wraps around, so it finds no
/// element).
pub fn parse_index(part: &str) -> (r: Option<usize>)
    ensures
        match parse_i32(part@) {
            Some(v) => r == Some((v as i32) as usize),
            None => r is None,
        },
{
    let s = chars_of(part);
    let neg = s.len() > 0 && s[0] == '-';
    let a: usize = if s.len() > 0 && (s[0] == '-' || s[0] == '+') { 1 } else { 0 };
    let ghost d = s@.skip(a as int);
    proof {
        if a == 1 {
            assert(s@.drop_first() =~= d);
        } else {
            assert(s@ =~= d);
        }
    }
    if a == s.len() {
        return None;
    }
    let mut k = a;
    while k < s.len()
        invariant
            a <= k <= s.len(),
            d == s@.skip(a as int),
            s@ == part@,
            a == (if s@.len() > 0 && (s@[0] == '-' || s@[0] == '+') { 1int } else { 0int }),
            forall|j: int| a <= j < k ==> '0' <= #[trigger] s@[j] <= '9',
        decreases s.len() - k,
    {
        if !('0' <= s[k] && s[k] <= '9') {
            assert(d[k - a] == s@[k as int]);
            return None;
        }
        k = k + 1;
    }
    assert(all_digits(d)) by {
        assert forall|i: int| 0 <= i < d.len() implies '0' <= #[trigger] d[i] <= '9' by {
            assert(d[i] == s@[a + i]);
        }
    }
    let mut v: u64 = 0;
    let mut i = a;
    assert(d.take(0) =~= Seq::<char>::empty());
    while i < s.len()
        invariant
            a <= i <= s.len(),
            d == s@.skip(a as int),
            s@ == part@,
            a == (if s@.len() > 0 && (s@[0] == '-' || s@[0] == '+') { 1int } else { 0int }),
            neg == (s@.len() > 0 && s@[0] == '-'),
            d == (if a == 1 { part@.drop_first() } else { part@ }),
            all_digits(d),
            v as nat == digits_value(d.take(i - a)),
            v <= 2147483648,
        decreases s.len() - i,
    {
        proof {
            assert(d[i - a] == s@[i as int]);
            assert(d.take(i - a + 1).drop_last() =~= d.take(i - a));
            assert(d.take(i - a + 1).last() == s@[i as int]);
        }
        let dg = (s[i] as u32 - 48) as u64;
        let nv = v * 10 + dg;
        if nv > 2147483648 {
            proof {
                assert(digits_value(d.take(i - a + 1)) == nv);
                lemma_digits_prefix_grows(d, i - a + 1);
            }
            return None;
        }
        v = nv;
        i = i + 1;
    }
    assert(d.take(s.len() - a) =~= d);
    if neg {
        let x: i32 = if v == 2147483648 { -2147483648i32 } else { -(v as i32) };
        Some(x as usize)
    } else {
        if v > 2147483647 {
            return None;
        }
        let x: i32 = v as i32;
        Some(x as usize)
    }
}

/// What a listing shows for a public property: a slot's value (by slot
/// id), or a marker for a getter or a method, which are never called.
#[derive(PartialEq, Eq, Structural, Clone, Copy, Debug)]
pub enum SlotEntry {
    Value(usize),
    Getter,
    Method,
}

/// The index of the entry for `name`, or -1.
pub open spec fn entry_index(m: Seq<(Seq<char>, SlotEntry)>, name: Seq<char>) -> int
    decreases m.len(),
{
    if m.len() == 0 {
        -1
    } else if entry_index(m.drop_last(), name) >= 0 {
        entry_index(m.drop_last(), name)
    } else if m.last().0 == name {
        m.len() - 1
    } else {
        -1
    }
}

/// One property taken into a listing: nothing once `limit` names are
/// listed; a slot or constant sets the name's entry to its value; a getter
/// or a method adds a marker for a name not yet listed; a property with no
/// getter is passed over.
pub open spec fn listing_step(
    m: Seq<(Seq<char>, SlotEntry)>,
    name: Seq<char>,
    kind: PropKind,
    limit: nat,
) -> Seq<(Seq<char>, SlotEntry)> {
    if m.len() >= limit {
        m
    } else {
        match kind {
            PropKind::Slot(id) | PropKind::ConstSlot(id) => {
                let i = entry_index(m, name);
                if i >= 0 {
                    m.update(i, (name, SlotEntry::Value(id)))
                } else {
                    m.push((name, SlotEntry::Value(id)))
                }
            },
            PropKind::Virtual(Some(_), _) => if entry_index(m, name) >= 0 {
                m
            } else {
                m.push((name, SlotEntry::Getter))
            },
            PropKind::Method(_) => if entry_index(m, name) >= 0 {
                m
            } else {
                m.push((name, SlotEntry::Method))
            },
            PropKind::Virtual(None, _) => m,
        }
    }
}

/// The listing of the first `n` public properties, at most `limit` names,
/// in the order names were first listed.
pub open spec fn slot_listing(props: Seq<(String, PropKind)>, limit: nat, n: int) -> Seq<(Seq<char>, SlotEntry)>
    decreases n,
{
    if n <= 0 {
        seq![]
    } else {
        listing_step(slot_listing(props, limit, n - 1), props[n - 1].0@, props[n - 1].1, limit)
    }
}

proof fn lemma_listing_full(props: Seq<(String, PropKind)>, limit: nat, m: int, n: int)
    requires
        0 <= m <= n,
        slot_listing(props, limit, m).len() >= limit,
    ensures
        slot_listing(props, limit, n) == slot_listing(props, limit, m),
    decreases n - m,
{
    if m < n {
        lemma_listing_full(props, limit, m, n - 1);
    }
}

proof fn lemma_entry_index(m: Seq<(Seq<char>, SlotEntry)>, name: Seq<char>, k: int)
    requires
        -1 <= k < m.len(),
        k >= 0 ==> m[k].0 == name,
        forall|j: int| 0 <= j < m.len() && (k < 0 || j < k) ==> m[j].0 != name,
    ensures
        entry_index(m, name) == k,
    decreases m.len(),
{
    if m.len() > 0 {
        if k == m.len() - 1 {
            lemma_entry_index(m.drop_last(), name, -1);
        } else {
            lemma_entry_index(m.drop_last(), name, k);
        }
    }
}

/// The listing of an object's public properties: each slot or constant
/// with its value, each getter or method as a marker, at most `limit`
/// names (a later slot of a listed name replaces its entry).
pub fn list_slot_entries(props: &[(String, PropKind)], limit: usize) -> (r: Vec<(String, SlotEntry)>)
    ensures
        r@.len() == slot_listing(props@, limit as nat, props@.len() as int).len(),
        forall|i: int| 0 <= i < r@.len() ==> (#[trigger] r@[i]).0@ == slot_listing(props@, limit as nat, props@.len() as int)[i].0
            && r@[i].1 == slot_listing(props@, limit as nat, props@.len() as int)[i].1,
{
    let mut out: Vec<(String, SlotEntry)> = Vec::new();
    let mut i: usize = 0;
    while i < props.len()
        invariant
            i <= props@.len(),
            out@.len() == slot_listing(props@, limit as nat, i as int).len(),
            forall|j: int| 0 <= j < out@.len() ==> (#[trigger] out@[j]).0@ == slot_listing(props@, limit as nat, i as int)[j].0
                && out@[j].1 == slot_listing(props@, limit as nat, i as int)[j].1,
        decreases props@.len() - i,
    {
        let ghost m = slot_listing(props@, limit as nat, i as int);
        if out.len() >= limit {
            proof {
                lemma_listing_full(props@, limit as nat, i as int, props@.len() as int);
            }
            return out;
        }
        let name = &props[i].0;
        let mut k: usize = 0;
        let mut found: Option<usize> = None;
        while k < out.len()
            invariant
                k <= out@.len(),
                out@.len() == m.len(),
                forall|j: int| 0 <= j < out@.len() ==> (#[trigger] out@[j]).0@ == m[j].0 && out@[j].1 == m[j].1,
                found is None ==> forall|j: int| 0 <= j < k ==> m[j].0 != name@,
                found matches Some(f) ==> f < out@.len() && m[f as int].0 == name@
                    && forall|j: int| 0 <= j < f ==> m[j].0 != name@,
            decreases out@.len() - k,
        {
            if found.is_none() && out[k].0 == *name {
                found = Some(k);
            }
            k = k + 1;
        }
        proof {
            match found {
                Some(f) => lemma_entry_index(m, name@, f as int),
                None => lemma_entry_index(m, name@, -1),
            }
        }
        let kind = props[i].1;
        match kind {
            PropKind::Slot(id) | PropKind::ConstSlot(id) => {
                match found {
                    Some(f) => {
                        out.set(f, (name.clone(), SlotEntry::Value(id)));
                    },
                    None => {
                        out.push((name.clone(), SlotEntry::Value(id)));
                    },
                }
            },
            PropKind::Virtual(Some(_), _) => {
                if found.is_none() {
                    out.push((name.clone(), SlotEntry::Getter));
                }
            },
            PropKind::Method(_) => {
                if found.is_none() {
                    out.push((name.clone(), SlotEntry::Method));
                }
            },
            PropKind::Virtual(None, _) => {},
        }
        proof {
            let m2 = slot_listing(props@, limit as nat, i + 1);
            assert(m2 == listing_step(m, props@[i as int].0@, kind, limit as nat));
            assert forall|j: int| 0 <= j < out@.len() implies (#[trigger] out@[j]).0@ == m2[j].0 && out@[j].1 == m2[j].1 by {
            }
        }
        i = i + 1;
    }
    out
}

/// The traits that `list_slots` reports: the first `limit` of an object's
/// traits, each with its local name, namespace URI and kind, in order.
pub fn list_traits(traits: &[(String, String, PropKind)], limit: usize) -> (r: Vec<(String, String, PropKind)>)
    ensures
        r@.len() == (if limit < traits@.len() { limit as int } else { traits@.len() as int }),
        forall|i: int|
            0 <= i < r@.len() ==> (#[trigger] r@[i]).0@ == traits@[i].0@ && r@[i].1@ == traits@[i].1@ && r@[i].2
                == traits@[i].2,
{
    let mut out: Vec<(String, String, PropKind)> = Vec::new();
    let mut i: usize = 0;
    while i < traits.len() && out.len() < limit
        invariant
            i <= traits@.len(),
            out@.len() == i,
            i <= limit,
            forall|k: int|
                0 <= k < i ==> (#[trigger] out@[k]).0@ == traits@[k].0@ && out@[k].1@ == traits@[k].1@ && out@[k].2
                    == traits@[k].2,
        decreases traits@.len() - i,
    {
        let (name, ns, kind) = &traits[i];
        out.push((name.clone(), ns.clone(), *kind));
        i = i + 1;
    }
    out
}

/// The kind of a trait as `list_slots` names it.
pub open spec fn kind_label_spec(k: PropKind) -> Seq<char> {
    match k {
        PropKind::Slot(_) => "Slot"@,
        PropKind::ConstSlot(_) => "Const"@,
        PropKind::Method(_) => "Method"@,
        PropKind::Virtual(_, _) => "Virtual"@,
    }
}

/// The kind of a trait as `list_slots` names it: `Slot`, `Const`, `Method`
/// or `Virtual`.
pub fn kind_label(k: PropKind) -> (r: String)
    ensures
        r@ == kind_label_spec(k),
{
    match k {
        PropKind::Slot(_) => String::from_str("Slot"),
        PropKind::ConstSlot(_) => String::from_str("Const"),
        PropKind::Method(_) => String::from_str("Method"),
        PropKind::Virtual(_, _) => String::from_str("Virtual"),
    }
}

/// The SharedObject `bind_so` means, by index: an exact key, else the first
/// key that ends with or holds the name.
pub open spec fn loose_so(ks: Seq<Seq<char>>, name: Seq<char>) -> Option<int> {
    match first_equal(ks, name, ks.len() as int) {
        Some(j) => Some(j),
        None => first_containing(ks, name, ks.len() as int),
    }
}

/// The SharedObject `bind_so` binds, by index into `keys`; when none goes by
/// the name it is refused with `SO not found: ` followed by the name as
/// shown (`name_shown`), ` have ` and the keys as shown (`keys_shown`).
pub fn pick_bound_so(keys: &[String], name: &str, name_shown: &str, keys_shown: &str) -> (r: Result<usize, String>)
    ensures
        match loose_so(key_views(keys@), name@) {
            Some(j) => r == Ok::<usize, String>(j as usize),
            None => r matches Err(m) && m@ == "SO not found: "@ + name_shown@ + " have "@ + keys_shown@,
        },
{
    match pick_so_loose(keys, name) {
        Some(i) => Ok(i),
        None => {
            let mut m = String::from_str("SO not found: ");
            m.append(name_shown);
            m.append(" have ");
            m.append(keys_shown);
            Err(m)
        },
    }
}

/// The message a failed SharedObject lookup is reported with.
pub open spec fn so_lookup_text(e: SoLookupError, name_shown: Seq<char>, keys_shown: Seq<char>) -> Seq<char> {
    match e {
        SoLookupError::NameEmpty => "SharedObject name empty"@,
        SoLookupError::NotLoaded => "SharedObject not loaded: "@ + name_shown + " (have: "@ + keys_shown + ")"@,
    }
}

impl SoLookupError {
    /// The message this refusal is reported with: `SharedObject name empty`,
    /// or `SharedObject not loaded: ` with the trimmed name as shown and the
    /// keys as shown.
    pub fn message(&self, name_shown: &str, keys_shown: &str) -> (m: String)
        ensures
            m@ == so_lookup_text(*self, name_shown@, keys_shown@),
    {
        match self {
            SoLookupError::NameEmpty => String::from_str("SharedObject name empty"),
            SoLookupError::NotLoaded => {
                let mut m = String::from_str("SharedObject not loaded: ");
                m.append(name_shown);
                m.append(" (have: ");
                m.append(keys_shown);
                m.append(")");
                m
            },
        }
    }
}

/// The marker a listing shows in place of a value that is not read: a
/// getter's or a method's.
pub open spec fn entry_marker_spec(e: SlotEntry) -> Option<Seq<char>> {
    match e {
        SlotEntry::Value(_) => None,
        SlotEntry::Getter => Some("[getter]"@),
        SlotEntry::Method => Some("[method]"@),
    }
}

/// The marker a listing shows for an entry: `[getter]` for a getter,
/// `[method]` for a method, none for a slot's value.
pub fn entry_marker(e: SlotEntry) -> (r: Option<String>)
    ensures
        match entry_marker_spec(e) {
            Some(t) => r matches Some(m) && m@ == t,
            None => r is None,
        },
{
    match e {
        SlotEntry::Value(_) => None,
        SlotEntry::Getter => Some(String::from_str("[getter]")),
        SlotEntry::Method => Some(String::from_str("[method]")),
    }
}

/// The refusal of `set_slot` when no slot has the field's name: `slot `,
/// the field as shown, ` not found on `, the class, ` (near=`, the near
/// traits as shown, `)`.
pub fn slot_not_found_message(field_shown: &str, class: &str, near_shown: &str) -> (m: String)
    ensures
        m@ == "slot "@ + field_shown@ + " not found on "@ + class@ + " (near="@ + near_shown@ + ")"@,
{
    let mut m = String::from_str("slot ");
    m.append(field_shown);
    m.append(" not found on ");
    m.append(class);
    m.append(" (near=");
    m.append(near_shown);
    m.append(")");
    m
}

/// A name matches a keyword list exactly when its ASCII lower-case form
/// holds one of the keywords, wherever that keyword stands in the list;
/// so matching against two lists put together is matching against either.
pub proof fn lemma_keyword_match(name: Seq<char>, kws: Seq<Seq<char>>, more: Seq<Seq<char>>)
    ensures
        forall|i: int| 0 <= i < kws.len() && contains_seq(ascii_lower(name), #[trigger] kws[i]) ==> matches_keywords(
            name,
            kws,
        ),
        matches_keywords(name, kws) ==> exists|i: int|
            0 <= i < kws.len() && contains_seq(ascii_lower(name), #[trigger] kws[i]),
        matches_keywords(name, kws + more) == (matches_keywords(name, kws) || matches_keywords(name, more)),
{
    let all = kws + more;
    if matches_keywords(name, all) {
        let i = choose|i: int| 0 <= i < all.len() && contains_seq(ascii_lower(name), #[trigger] all[i]);
        if i < kws.len() {
            assert(all[i] == kws[i]);
        } else {
            assert(all[i] == more[i - kws.len()]);
        }
    }
    if matches_keywords(name, kws) {
        let i = choose|i: int| 0 <= i < kws.len() && contains_seq(ascii_lower(name), #[trigger] kws[i]);
        assert(all[i] == kws[i]);
    }
    if matches_keywords(name, more) {
        let i = choose|i: int| 0 <= i < more.len() && contains_seq(ascii_lower(name), #[trigger] more[i]);
        assert(all[kws.len() + i] == more[i]);
    }
}

/// The exact-name choice among keys is the first key equal to the name:
/// the key found equals it and no earlier key does, and none is found only
/// when no key equals it.
pub proof fn lemma_first_equal_is_first(keys: Seq<Seq<char>>, name: Seq<char>, n: int)
    requires
        0 <= n <= keys.len(),
    ensures
        first_equal(keys, name, n) matches Some(j) ==> 0 <= j < n && keys[j] == name && forall|i: int|
            0 <= i < j ==> #[trigger] keys[i] != name,
        first_equal(keys, name, n) is None ==> forall|i: int| 0 <= i < n ==> #[trigger] keys[i] != name,
    decreases n,
{
    if n > 0 {
        lemma_first_equal_is_first(keys, name, n - 1);
    }
}

/// The loose choice of `bind_so` among keys that are not equal to the name
/// is the first key that ends with or holds the name; none is found only
/// when no key does.
pub proof fn lemma_first_containing_is_first(keys: Seq<Seq<char>>, name: Seq<char>, n: int)
    requires
        0 <= n <= keys.len(),
    ensures
        first_containing(keys, name, n) matches Some(j) ==> 0 <= j < n && (ends_with(keys[j], name) || contains_seq(
            keys[j],
            name,
        )) && forall|i: int| 0 <= i < j ==> !(ends_with(#[trigger] keys[i], name) || contains_seq(keys[i], name)),
        first_containing(keys, name, n) is None ==> forall|i: int|
            0 <= i < n ==> !(ends_with(#[trigger] keys[i], name) || contains_seq(keys[i], name)),
    decreases n,
{
    if n > 0 {
        lemma_first_containing_is_first(keys, name, n - 1);
    }
}

/// A key ends with anything it was built to end with, so a key made of any
/// prefix, then `/` or nothing, then the name is a candidate for the name.
pub proof fn lemma_so_candidate_suffix(prefix: Seq<char>, name: Seq<char>)
    ensures
        ends_with(prefix + name, name),
        so_candidate(prefix + name, name),
        so_candidate(prefix + seq!['/'] + name, name),
{
    let k = prefix + name;
    assert(k.skip(k.len() - name.len()) =~= name);
    let k2 = prefix + seq!['/'] + name;
    assert(k2.skip(k2.len() - name.len()) =~= name);
}

/// The SharedObject a name means, among keys not equal to it, is a longest
/// candidate by byte length, the last of equally long ones: the key found
/// is a candidate, no candidate is longer, no later candidate is as long;
/// none is found only when no key is a candidate.
pub proof fn lemma_best_so_is_longest(keys: Seq<Seq<char>>, name: Seq<char>, n: int)
    requires
        0 <= n <= keys.len(),
    ensures
        best_so(keys, name, n) matches Some(j) ==> {
            &&& 0 <= j < n
            &&& so_candidate(keys[j], name)
            &&& forall|i: int|
                0 <= i < n && so_candidate(#[trigger] keys[i], name) ==> byte_len(keys[i]) <= byte_len(keys[j])
            &&& forall|i: int|
                j < i < n && so_candidate(#[trigger] keys[i], name) ==> byte_len(keys[i]) < byte_len(keys[j])
        },
        best_so(keys, name, n) is None ==> forall|i: int| 0 <= i < n ==> !so_candidate(#[trigger] keys[i], name),
    decreases n,
{
    if n > 0 {
        lemma_best_so_is_longest(keys, name, n - 1);
    }
}

/// The slot `set_slot` and the property walks read by name is the first
/// slot or constant with that local name: the trait found has the name and
/// that slot, no earlier trait with the name is a slot or constant, and
/// none is found only when no trait with the name is one.
pub proof fn lemma_first_slot_named_is_first(traits: Seq<(String, PropKind)>, name: Seq<char>, n: int)
    requires
        0 <= n <= traits.len(),
    ensures
        first_slot_named(traits, name, n) matches Some(s) ==> exists|j: int|
            0 <= j < n && #[trigger] traits[j].0@ == name && (traits[j].1 == PropKind::Slot(s) || traits[j].1
                == PropKind::ConstSlot(s)) && forall|i: int|
                0 <= i < j && #[trigger] traits[i].0@ == name ==> !(traits[i].1 is Slot || traits[i].1 is ConstSlot),
        first_slot_named(traits, name, n) is None ==> forall|i: int|
            0 <= i < n && #[trigger] traits[i].0@ == name ==> !(traits[i].1 is Slot || traits[i].1 is ConstSlot),
    decreases n,
{
    if n > 0 {
        lemma_first_slot_named_is_first(traits, name, n - 1);
        if first_slot_named(traits, name, n - 1) is None && first_slot_named(traits, name, n) is Some {
            assert(traits[n - 1].0@ == name);
        }
    }
}

/// The method `call` falls back to is the first method with that local
/// name: the trait found has the name and that dispatch id, no earlier
/// trait with the name is a method, and none is found only when no trait
/// with the name is one.
pub proof fn lemma_first_method_named_is_first(traits: Seq<(String, PropKind)>, name: Seq<char>, n: int)
    requires
        0 <= n <= traits.len(),
    ensures
        first_method_named(traits, name, n) matches Some(d) ==> exists|j: int|
            0 <= j < n && #[trigger] traits[j].0@ == name && traits[j].1 == PropKind::Method(d) && forall|i: int|
                0 <= i < j && #[trigger] traits[i].0@ == name ==> !(traits[i].1 is Method),
        first_method_named(traits, name, n) is None ==> forall|i: int|
            0 <= i < n && #[trigger] traits[i].0@ == name ==> !(traits[i].1 is Method),
    decreases n,
{
    if n > 0 {
        lemma_first_method_named_is_first(traits, name, n - 1);
        if first_method_named(traits, name, n - 1) is None && first_method_named(traits, name, n) is Some {
            assert(traits[n - 1].0@ == name);
        }
    }
}

/// Array indices read as std reads an `i32`: the numeral of a number up to
/// `i32::MAX`, with or without `+`, reads as that number; `-` before the
/// numeral of a number up to 2^31 reads as its negative; a sign alone, or a
/// character other than a digit after the sign, reads as nothing.
pub proof fn lemma_parse_i32_numerals(n: nat, s: Seq<char>)
    ensures
        n <= 2147483647 ==> parse_i32(crate::text::decimal(n)) == Some(n as int),
        n <= 2147483647 ==> parse_i32(seq!['+'] + crate::text::decimal(n)) == Some(n as int),
        n <= 2147483648 ==> parse_i32(seq!['-'] + crate::text::decimal(n)) == Some(-(n as int)),
        (exists|i: int| 1 <= i < s.len() && !('0' <= #[trigger] s[i] <= '9')) ==> parse_i32(s) is None,
        parse_i32(seq!['-']) is None && parse_i32(seq!['+']) is None && parse_i32(Seq::<char>::empty()) is None,
{
    crate::http::lemma_decimal_reads_back(n);
    let d = crate::text::decimal(n);
    assert((seq!['+'] + d).drop_first() =~= d);
    assert((seq!['-'] + d).drop_first() =~= d);
    assert(d[0] != '-' && d[0] != '+');
    if exists|i: int| 1 <= i < s.len() && !('0' <= #[trigger] s[i] <= '9') {
        let i = choose|i: int| 1 <= i < s.len() && !('0' <= #[trigger] s[i] <= '9');
        if s.len() > 0 && (s[0] == '-' || s[0] == '+') {
            assert(s.drop_first()[i - 1] == s[i]);
        }
    }
    assert(seq!['-'].drop_first().len() == 0);
    assert(seq!['+'].drop_first().len() == 0);
}

/// A keyword list is read piece by piece between commas: a first piece
/// without a comma, then `,`, then the rest, gives that piece and then the
/// pieces of the rest.
pub proof fn lemma_comma_pieces_cut(a: Seq<char>, b: Seq<char>)
    requires
        !a.contains(','),
    ensures
        comma_pieces(a + seq![','] + b) == seq![a] + comma_pieces(b),
{
    let s = a + seq![','] + b;
    assert forall|k: int| 0 <= k < a.len() implies s[k] != ',' by {
        assert(s[k] == a[k]);
        assert(a.contains(a[k]));
    }
    crate::paths::lemma_char_index(s, ',', a.len() as int);
    assert(s.take(a.len() as int) =~= a);
    assert(s.skip(a.len() as int + 1) =~= b);
}

/// Keywords are read piece by piece, in order, none lost: the keywords of
/// two runs of pieces are those of the first followed by those of the
/// second; every keyword is non-empty and holds no ASCII capital.
pub proof fn lemma_keywords_in_order(p1: Seq<Seq<char>>, p2: Seq<Seq<char>>)
    ensures
        keywords_of(p1 + p2) == keywords_of(p1) + keywords_of(p2),
        forall|i: int| 0 <= i < keywords_of(p1).len() ==> (#[trigger] keywords_of(p1)[i]).len() > 0 && forall|
            j: int,
        | 0 <= j < keywords_of(p1)[i].len() ==> !('A' <= #[trigger] keywords_of(p1)[i][j] <= 'Z'),
    decreases p1.len(),
{
    if p1.len() == 0 {
        assert(p1 + p2 =~= p2);
        assert(keywords_of(p1) + keywords_of(p2) =~= keywords_of(p2));
    } else {
        let t = p1.drop_first();
        lemma_keywords_in_order(t, p2);
        assert((p1 + p2)[0] == p1[0]);
        assert((p1 + p2).drop_first() =~= t + p2);
        let k = ascii_lower(trim(p1[0]));
        let head = if k.len() > 0 { seq![k] } else { Seq::<Seq<char>>::empty() };
        assert(keywords_of(p1 + p2) =~= head + (keywords_of(t) + keywords_of(p2)));
        assert(keywords_of(p1) =~= head + keywords_of(t));
        assert forall|j: int| 0 <= j < k.len() implies !('A' <= #[trigger] k[j] <= 'Z') by {}
        let kw = keywords_of(p1);
        assert forall|i: int| 0 <= i < kw.len() implies (#[trigger] kw[i]).len() > 0 && forall|j: int|
            0 <= j < kw[i].len() ==> !('A' <= #[trigger] kw[i][j] <= 'Z') by {
            if i >= head.len() {
                assert(kw[i] == keywords_of(t)[i - head.len()]);
            }
        }
    }
}

} // verus!
