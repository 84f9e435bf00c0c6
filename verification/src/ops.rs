//! The checks and paths of the SharedObject and storage ops, which come
//! before any work on the player.
use vstd::prelude::*;
use vstd::string::StringSliceAdditionalSpecFns;
use crate::base64::{b64_decode, b64_error_text, decode_base64};
use crate::text::{is_whitespace, trim, trim_end, trim_start};
use crate::paths::{lemma_char_index, target_of};

verus! {

/// `so:NAME`, the path of a SharedObject's data; an empty name is refused
/// with `name required`.
pub fn so_data_path(name: &str) -> (r: Result<String, String>)
    ensures
        name@.len() == 0 ==> (r matches Err(m) && m@ == "name required"@),
        name@.len() > 0 ==> (r matches Ok(p) && p@ == "so:"@ + name@),
{
    if name.is_empty() {
        return Err(String::from_str("name required"));
    }
    let mut p = String::from_str("so:");
    p.append(name);
    Ok(p)
}

/// `so:NAME|PROP`, the path of one property of a SharedObject's data; an
/// empty name or property is refused with `name and prop required`.
pub fn so_prop_path(name: &str, prop: &str) -> (r: Result<String, String>)
    ensures
        name@.len() == 0 || prop@.len() == 0 ==> (r matches Err(m) && m@ == "name and prop required"@),
        name@.len() > 0 && prop@.len() > 0 ==> (r matches Ok(p) && p@ == "so:"@ + name@ + "|"@ + prop@),
{
    if name.is_empty() || prop.is_empty() {
        return Err(String::from_str("name and prop required"));
    }
    let mut p = String::from_str("so:");
    p.append(name);
    p.append("|");
    p.append(prop);
    Ok(p)
}

/// The bytes `storage_put` stores: the decoded base64 text. An empty key is
/// refused with `key required`, a text that does not decode with `base64: `
/// and the decoder's message.
pub fn plan_storage_put(key: &str, b64: &str) -> (r: Result<Vec<u8>, String>)
    ensures
        key@.len() == 0 ==> (r matches Err(m) && m@ == "key required"@),
        key@.len() > 0 ==> match b64_decode(b64.spec_bytes()) {
            Ok(v) => r matches Ok(bytes) && bytes@ == v,
            Err(e) => r matches Err(m) && m@ == "base64: "@ + b64_error_text(e),
        },
{
    if key.is_empty() {
        return Err(String::from_str("key required"));
    }
    match decode_base64(b64.as_bytes()) {
        Ok(v) => Ok(v),
        Err(e) => {
            let mut m = String::from_str("base64: ");
            m.append(e.message().as_str());
            Err(m)
        },
    }
}

proof fn lemma_trim_end_concat(a: Seq<char>, b: Seq<char>)
    requires
        a.len() > 0,
        !is_whitespace(a.last()),
    ensures
        trim_end(a + b) == a + trim_end(b),
    decreases b.len(),
{
    if b.len() == 0 {
        assert(a + b =~= a);
        assert(a + trim_end(b) =~= a);
    } else {
        assert((a + b).last() == b.last());
        if is_whitespace(b.last()) {
            assert((a + b).drop_last() =~= a + b.drop_last());
            lemma_trim_end_concat(a, b.drop_last());
        }
    }
}

/// The path that `set_so_prop` builds reads back as that SharedObject and
/// property: for a name without `|`, `so:NAME|PROP` is the SharedObject
/// trimmed `NAME` with the walk `PROP` (without trailing whitespace, which
/// trimming the whole path drops).
pub proof fn lemma_so_prop_path_reads_back(name: Seq<char>, prop: Seq<char>)
    requires
        forall|i: int| 0 <= i < name.len() ==> name[i] != '|',
    ensures
        target_of("so:"@ + name + "|"@ + prop) == Some((true, trim(name), trim_end(prop))),
{
    reveal_strlit("so:");
    reveal_strlit("|");
    let head = "so:"@ + name + "|"@;
    let path = head + prop;
    assert(path =~= "so:"@ + name + "|"@ + prop);
    assert(path[0] == 's');
    assert(trim_start(path) == path);
    lemma_trim_end_concat(head, prop);
    let p = trim(path);
    assert(p == head + trim_end(prop));
    assert(p.take(3) =~= "so:"@);
    let rest = p.skip(3);
    assert(rest =~= name + "|"@ + trim_end(prop));
    assert forall|k: int| 0 <= k < name.len() implies rest[k] != '|' by {
        assert(rest[k] == name[k]);
    }
    assert(rest[name.len() as int] == '|');
    lemma_char_index(rest, '|', name.len() as int);
    assert(rest.take(name.len() as int) =~= name);
    assert(rest.skip(name.len() as int + 1) =~= trim_end(prop));
}

} // verus!
