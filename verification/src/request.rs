//! The player's JSON RPC: a request names an op and carries optional
//! fields; planning picks the op, fills in each missing field's default and
//! refuses, with the op's message, a request that lacks what the op needs
//! before any work on the player.
//! `V` is the type of the JSON values that requests carry through.
use vstd::prelude::*;
use crate::text::{str_eq, text_or};
use crate::base64::{b64_decode, b64_error_text};
use crate::ops::{so_data_path, so_prop_path, plan_storage_put};

verus! {

/// A decoded RPC request: the op and every optional field.
pub struct Request<V> {
    pub op: String,
    pub path: Option<String>,
    pub method: Option<String>,
    pub value: Option<V>,
    pub args: Option<Vec<V>>,
    pub keywords: Option<String>,
    pub name: Option<String>,
    pub key: Option<String>,
    pub base64: Option<String>,
    pub max_depth: Option<usize>,
    pub limit: Option<usize>,
    pub prop: Option<String>,
}

/// Where `set_slot` takes the value it writes: the object at a path named
/// by `name`, the request's `value`, or nowhere (which the op refuses once
/// the target object is resolved).
pub enum SlotSource<V> {
    Ref(String),
    Value(V),
    Missing,
}

/// What the player is asked to do, with every default filled in. A `value`
/// of `None` stands for JSON `null`.
pub enum Command<V> {
    Ping,
    ListDisplay { max_depth: usize, limit: usize },
    ListProps { path: String, limit: usize },
    Get { path: String },
    SetValue { path: String, value: Option<V> },
    Call { path: String, method: String, args: Vec<V> },
    Find { keywords: String, max_depth: usize, limit: usize },
    ListSo,
    GetSo { path: String, limit: usize },
    SetSoProp { path: String, value: Option<V> },
    StorageGet { key: String },
    StoragePut { key: String, bytes: Vec<u8> },
    BindSo { path: String, name: String },
    SetRef { path: String, name: String },
    SetSlot { path: String, prop: String, source: SlotSource<V> },
    ListSlots { path: String, limit: usize },
}

/// `r` is the refusal `m`.
pub open spec fn refused<T>(r: Result<T, String>, m: Seq<char>) -> bool {
    r matches Err(e) && e@ == m
}

/// `s` is where `set_slot` takes its value for the request's `name` and
/// `value`: a non-empty `name` first, then a value, else nowhere.
pub open spec fn slot_source_is<V>(name: Option<String>, value: Option<V>, s: SlotSource<V>) -> bool {
    if name is Some && name->0@.len() > 0 {
        s matches SlotSource::Ref(n) && n@ == name->0@
    } else {
        match value {
            Some(v) => s == SlotSource::Value(v),
            None => s is Missing,
        }
    }
}

/// The text of an optional field, or its default.
pub open spec fn text_or_spec(o: Option<String>, d: Seq<char>) -> Seq<char> {
    match o {
        Some(s) => s@,
        None => d,
    }
}

/// An optional count, or its default.
pub open spec fn count_or(o: Option<usize>, d: usize) -> usize {
    match o {
        Some(n) => n,
        None => d,
    }
}

/// The keywords `find` looks for when the request names none.
pub open spec fn default_keywords() -> Seq<char> {
    "money,tip,score,coin,gold,hp,day,rank,allmoney"@
}

/// The field that `bind_so` writes when the request names none.
pub open spec fn default_bind_path() -> Seq<char> {
    "root/thanksTanks.sharedOb"@
}

/// `r` answers `req`: its op picks the variant, each field comes from the
/// request or from the op's default, and a request lacking what its op needs
/// is refused with the op's message.
pub open spec fn plans<V>(req: Request<V>, r: Result<Command<V>, String>) -> bool {
    let op = req.op@;
    if op == "ping"@ {
        r matches Ok(c) && c is Ping
    } else if op == "list_display"@ {
        r matches Ok(Command::ListDisplay { max_depth, limit })
            && max_depth == count_or(req.max_depth, 3) && limit == count_or(req.limit, 120)
    } else if op == "list_props"@ {
        r matches Ok(Command::ListProps { path, limit })
            && path@ == text_or_spec(req.path, "root"@) && limit == count_or(req.limit, 80)
    } else if op == "get"@ {
        if text_or_spec(req.path, ""@).len() == 0 {
            refused(r, "path required"@)
        } else {
            r matches Ok(Command::Get { path }) && path@ == text_or_spec(req.path, ""@)
        }
    } else if op == "set"@ {
        if text_or_spec(req.path, ""@).len() == 0 {
            refused(r, "path required"@)
        } else {
            r matches Ok(Command::SetValue { path, value }) && path@ == text_or_spec(req.path, ""@) && value
                == req.value
        }
    } else if op == "call"@ {
        if text_or_spec(req.method, ""@).len() == 0 {
            refused(r, "method required"@)
        } else {
            r matches Ok(Command::Call { path, method, args })
                && path@ == text_or_spec(req.path, "root"@)
                && method@ == text_or_spec(req.method, ""@)
                && args@ == (match req.args {
                    Some(a) => a@,
                    None => Seq::<V>::empty(),
                })
        }
    } else if op == "find"@ {
        r matches Ok(Command::Find { keywords, max_depth, limit })
            && keywords@ == text_or_spec(req.keywords, default_keywords())
            && max_depth == count_or(req.max_depth, 5) && limit == count_or(req.limit, 60)
    } else if op == "list_so"@ {
        r matches Ok(c) && c is ListSo
    } else if op == "get_so"@ {
        let name = text_or_spec(req.name, ""@);
        if name.len() == 0 {
            refused(r, "name required"@)
        } else {
            r matches Ok(Command::GetSo { path, limit }) && path@ == "so:"@ + name && limit == count_or(
                req.limit,
                80,
            )
        }
    } else if op == "set_so_prop"@ {
        let name = text_or_spec(req.name, ""@);
        let prop = text_or_spec(req.prop, ""@);
        if name.len() == 0 || prop.len() == 0 {
            refused(r, "name and prop required"@)
        } else {
            r matches Ok(Command::SetSoProp { path, value }) && path@ == "so:"@ + name + "|"@ + prop && value
                == req.value
        }
    } else if op == "storage_get"@ {
        if text_or_spec(req.key, ""@).len() == 0 {
            refused(r, "key required"@)
        } else {
            r matches Ok(Command::StorageGet { key }) && key@ == text_or_spec(req.key, ""@)
        }
    } else if op == "storage_put"@ {
        let key = text_or_spec(req.key, ""@);
        if key.len() == 0 {
            refused(r, "key required"@)
        } else {
            match b64_decode(vstd::utf8::encode_utf8(text_or_spec(req.base64, ""@))) {
                Ok(v) => r matches Ok(Command::StoragePut { key: k, bytes }) && k@ == key && bytes@ == v,
                Err(e) => refused(r, "base64: "@ + b64_error_text(e)),
            }
        }
    } else if op == "bind_so"@ {
        if text_or_spec(req.name, ""@).len() == 0 {
            refused(r, "name = SharedObject key required"@)
        } else {
            r matches Ok(Command::BindSo { path, name })
                && path@ == text_or_spec(req.path, default_bind_path()) && name@ == text_or_spec(req.name, ""@)
        }
    } else if op == "set_ref"@ {
        if text_or_spec(req.path, ""@).len() == 0 || text_or_spec(req.name, ""@).len() == 0 {
            refused(r, "set_ref needs path (target) and name (source object path)"@)
        } else {
            r matches Ok(Command::SetRef { path, name })
                && path@ == text_or_spec(req.path, ""@) && name@ == text_or_spec(req.name, ""@)
        }
    } else if op == "set_slot"@ {
        if text_or_spec(req.path, ""@).len() == 0 || text_or_spec(req.prop, ""@).len() == 0 {
            refused(r, "set_slot needs path (object) and prop (field name)"@)
        } else {
            r matches Ok(Command::SetSlot { path, prop, source })
                && path@ == text_or_spec(req.path, ""@) && prop@ == text_or_spec(req.prop, ""@)
                && slot_source_is(req.name, req.value, source)
        }
    } else if op == "list_slots"@ {
        r matches Ok(Command::ListSlots { path, limit })
            && path@ == text_or_spec(req.path, "root"@) && limit == count_or(req.limit, 200)
    } else {
        refused(r, "unknown op: "@ + op)
    }
}

fn count_or_exec(o: Option<usize>, d: usize) -> (r: usize)
    ensures
        r == count_or(o, d),
{
    match o {
        Some(n) => n,
        None => d,
    }
}

fn err<T>(m: &str) -> (r: Result<T, String>)
    ensures
        refused(r, m@),
{
    Err(String::from_str(m))
}

/// Picks the command a request asks for, each missing field at its default:
/// `list_display` 3 deep and 120 nodes, `list_props` of `root` and 80 props,
/// `call` on `root` with no arguments, `find` the default keywords 5 deep and
/// 60 hits, `get_so` 80 props, `bind_so` onto `root/thanksTanks.sharedOb`,
/// `list_slots` of `root` and 200 traits; any other missing text is empty.
/// A request without the path, method, name, property or key its op needs,
/// or whose `storage_put` text does not decode, is refused with the op's
/// message; an op that is not known with `unknown op: ` and its name.
pub fn plan_request<V>(req: Request<V>) -> (r: Result<Command<V>, String>)
    ensures
        plans(req, r),
{
    let op = req.op.as_str();
    if str_eq(op, "ping") {
        Ok(Command::Ping)
    } else if str_eq(op, "list_display") {
        Ok(Command::ListDisplay { max_depth: count_or_exec(req.max_depth, 3), limit: count_or_exec(req.limit, 120) })
    } else if str_eq(op, "list_props") {
        Ok(Command::ListProps { path: text_or(&req.path, "root"), limit: count_or_exec(req.limit, 80) })
    } else if str_eq(op, "get") {
        let path = text_or(&req.path, "");
        if path.as_str().is_empty() {
            return err("path required");
        }
        Ok(Command::Get { path })
    } else if str_eq(op, "set") {
        let path = text_or(&req.path, "");
        if path.as_str().is_empty() {
            return err("path required");
        }
        Ok(Command::SetValue { path, value: req.value })
    } else if str_eq(op, "call") {
        let method = text_or(&req.method, "");
        if method.as_str().is_empty() {
            return err("method required");
        }
        let args = match req.args {
            Some(a) => a,
            None => Vec::new(),
        };
        Ok(Command::Call { path: text_or(&req.path, "root"), method, args })
    } else if str_eq(op, "find") {
        Ok(Command::Find {
            keywords: text_or(&req.keywords, "money,tip,score,coin,gold,hp,day,rank,allmoney"),
            max_depth: count_or_exec(req.max_depth, 5),
            limit: count_or_exec(req.limit, 60),
        })
    } else if str_eq(op, "list_so") {
        Ok(Command::ListSo)
    } else if str_eq(op, "get_so") {
        let name = text_or(&req.name, "");
        match so_data_path(name.as_str()) {
            Ok(path) => Ok(Command::GetSo { path, limit: count_or_exec(req.limit, 80) }),
            Err(m) => Err(m),
        }
    } else if str_eq(op, "set_so_prop") {
        let name = text_or(&req.name, "");
        let prop = text_or(&req.prop, "");
        match so_prop_path(name.as_str(), prop.as_str()) {
            Ok(path) => Ok(Command::SetSoProp { path, value: req.value }),
            Err(m) => Err(m),
        }
    } else if str_eq(op, "storage_get") {
        let key = text_or(&req.key, "");
        if key.as_str().is_empty() {
            return err("key required");
        }
        Ok(Command::StorageGet { key })
    } else if str_eq(op, "storage_put") {
        let key = text_or(&req.key, "");
        let b64 = text_or(&req.base64, "");
        match plan_storage_put(key.as_str(), b64.as_str()) {
            Ok(bytes) => Ok(Command::StoragePut { key, bytes }),
            Err(m) => Err(m),
        }
    } else if str_eq(op, "bind_so") {
        let name = text_or(&req.name, "");
        if name.as_str().is_empty() {
            return err("name = SharedObject key required");
        }
        Ok(Command::BindSo { path: text_or(&req.path, "root/thanksTanks.sharedOb"), name })
    } else if str_eq(op, "set_ref") {
        let path = text_or(&req.path, "");
        let name = text_or(&req.name, "");
        if path.as_str().is_empty() || name.as_str().is_empty() {
            return err("set_ref needs path (target) and name (source object path)");
        }
        Ok(Command::SetRef { path, name })
    } else if str_eq(op, "set_slot") {
        let path = text_or(&req.path, "");
        let prop = text_or(&req.prop, "");
        if path.as_str().is_empty() || prop.as_str().is_empty() {
            return err("set_slot needs path (object) and prop (field name)");
        }
        let from = text_or(&req.name, "");
        proof {
            reveal_strlit("");
        }
        let source = if !from.as_str().is_empty() {
            SlotSource::Ref(from)
        } else {
            match req.value {
                Some(v) => SlotSource::Value(v),
                None => SlotSource::Missing,
            }
        };
        Ok(Command::SetSlot { path, prop, source })
    } else if str_eq(op, "list_slots") {
        Ok(Command::ListSlots { path: text_or(&req.path, "root"), limit: count_or_exec(req.limit, 200) })
    } else {
        let mut m = String::from_str("unknown op: ");
        m.append(op);
        Err(m)
    }
}

/// The kind of a JSON value handed to the player.
#[derive(PartialEq, Eq, Structural, Clone, Copy, Debug)]
pub enum JsonKind {
    Null,
    Bool,
    Number,
    Text,
    Array,
    Object,
}

/// Whether the player takes a JSON value of this kind: only `null`, booleans,
/// numbers and strings; an array or object is refused with
/// `object/array values not supported — use primitives`.
pub fn primitive_value(k: JsonKind) -> (r: Result<(), String>)
    ensures
        (k is Array || k is Object) ==> refused(r, "object/array values not supported — use primitives"@),
        !(k is Array || k is Object) ==> r is Ok,
{
    match k {
        JsonKind::Array | JsonKind::Object => Err(String::from_str("object/array values not supported — use primitives")),
        _ => Ok(()),
    }
}

impl<V> SlotSource<V> {
    /// Whether `set_slot` has a value to write: without a source it is
    /// refused with `set_slot needs value or name=$ref source path`.
    pub fn require(&self) -> (r: Result<(), String>)
        ensures
            self is Missing ==> refused(r, "set_slot needs value or name=$ref source path"@),
            !(self is Missing) ==> r is Ok,
    {
        match self {
            SlotSource::Missing => Err(String::from_str("set_slot needs value or name=$ref source path")),
            _ => Ok(()),
        }
    }
}

} // verus!
