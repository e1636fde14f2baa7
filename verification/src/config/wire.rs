//! The wire format of long-poll requests: records closed by a terminator,
//! their fields parted by the key separator.
//!
//! A listen request holds, per record, a data id, a group, optionally a
//! tenant, and last the digest that the client knows. A list of changed keys
//! holds, per record, a data id, a group and optionally a tenant.

use std::sync::Arc;
use vstd::prelude::*;
use crate::config::config_core::{ConfigKey, ConfigKeySpec, KEY_SEP};
use crate::text::{chars_of, find_char, lemma_find_char, scan_for, text_of};

verus! {

/// The character that closes a record.
pub const RECORD_END: char = '\u{1}';

/// The tenant name that stands for the default namespace on the wire.
pub open spec fn public_tenant() -> Seq<char> {
    seq!['p', 'u', 'b', 'l', 'i', 'c']
}

/// A watched key with the digest that the watcher knows.
#[derive(Debug)]
pub struct ListenerItem {
    pub key: ConfigKey,
    pub md5: Arc<String>,
}

/// A watched item as texts.
pub struct ListenerItemSpec {
    pub key: ConfigKeySpec,
    pub md5: Seq<char>,
}

impl View for ListenerItem {
    type V = ListenerItemSpec;

    open spec fn view(&self) -> ListenerItemSpec {
        ListenerItemSpec { key: self.key@, md5: self.md5@ }
    }
}

/// The views of a row of items.
pub open spec fn item_views(s: Seq<ListenerItem>) -> Seq<ListenerItemSpec> {
    Seq::new(s.len(), |i: int| s[i]@)
}

/// The views of a row of keys.
pub open spec fn key_views(s: Seq<ConfigKey>) -> Seq<ConfigKeySpec> {
    Seq::new(s.len(), |i: int| s[i]@)
}

/// A record taken apart: the fields that a separator closes, at most three,
/// and the text after the last of those separators. Separators in the tail
/// belong to the tail.
pub struct RecordSpec {
    pub fields: Seq<Seq<char>>,
    pub tail: Seq<char>,
}

/// The record `s[lo..hi)` taken apart.
pub open spec fn split_record(s: Seq<char>, lo: int, hi: int) -> RecordSpec {
    let first = find_char(s, lo, hi, KEY_SEP);
    if first >= hi {
        RecordSpec { fields: Seq::empty(), tail: s.subrange(lo, hi) }
    } else {
        let second = find_char(s, first + 1, hi, KEY_SEP);
        if second >= hi {
            RecordSpec { fields: seq![s.subrange(lo, first)], tail: s.subrange(first + 1, hi) }
        } else {
            let third = find_char(s, second + 1, hi, KEY_SEP);
            if third >= hi {
                RecordSpec {
                    fields: seq![s.subrange(lo, first), s.subrange(first + 1, second)],
                    tail: s.subrange(second + 1, hi),
                }
            } else {
                RecordSpec {
                    fields: seq![
                        s.subrange(lo, first),
                        s.subrange(first + 1, second),
                        s.subrange(second + 1, third),
                    ],
                    tail: s.subrange(third + 1, hi),
                }
            }
        }
    }
}

/// The watched item that a record of a listen request stands for. With two
/// fields the tenant is empty; with three the third is the tenant, where
/// `public` stands for the empty tenant. The tail is the digest.
pub open spec fn item_of(r: RecordSpec) -> ListenerItemSpec {
    if r.fields.len() == 2 {
        ListenerItemSpec {
            key: ConfigKeySpec { data_id: r.fields[0], group: r.fields[1], tenant: Seq::empty() },
            md5: r.tail,
        }
    } else {
        ListenerItemSpec {
            key: ConfigKeySpec {
                data_id: r.fields[0],
                group: r.fields[1],
                tenant: if r.fields[2] == public_tenant() {
                    Seq::empty()
                } else {
                    r.fields[2]
                },
            },
            md5: r.tail,
        }
    }
}

/// The key that a record of a list of changed keys stands for. With one
/// field the tail is the group and the tenant is empty; with more the tail
/// is the tenant.
pub open spec fn changed_key_of(r: RecordSpec) -> ConfigKeySpec {
    if r.fields.len() == 1 {
        ConfigKeySpec { data_id: r.fields[0], group: r.tail, tenant: Seq::empty() }
    } else {
        ConfigKeySpec { data_id: r.fields[0], group: r.fields[1], tenant: r.tail }
    }
}

/// Every record of `s` from `pos` on has at least `least` fields. Text after
/// the last terminator is no record.
pub open spec fn records_ok(s: Seq<char>, pos: int, least: int) -> bool
    decreases s.len() - pos,
    when 0 <= pos <= s.len()
    via records_ok_decreases
{
    let e = find_char(s, pos, s.len() as int, RECORD_END);
    if e >= s.len() {
        true
    } else {
        split_record(s, pos, e).fields.len() >= least && records_ok(s, e + 1, least)
    }
}

#[via_fn]
proof fn records_ok_decreases(s: Seq<char>, pos: int, least: int) {
    lemma_find_char(s, pos, s.len() as int, RECORD_END);
}

/// The items of the records of `s` from `pos` on, in order.
pub open spec fn items_from(s: Seq<char>, pos: int) -> Seq<ListenerItemSpec>
    decreases s.len() - pos,
    when 0 <= pos <= s.len()
    via items_from_decreases
{
    let e = find_char(s, pos, s.len() as int, RECORD_END);
    if e >= s.len() {
        Seq::empty()
    } else {
        seq![item_of(split_record(s, pos, e))] + items_from(s, e + 1)
    }
}

#[via_fn]
proof fn items_from_decreases(s: Seq<char>, pos: int) {
    lemma_find_char(s, pos, s.len() as int, RECORD_END);
}

/// The keys of the records of `s` from `pos` on, in order.
pub open spec fn changed_keys_from(s: Seq<char>, pos: int) -> Seq<ConfigKeySpec>
    decreases s.len() - pos,
    when 0 <= pos <= s.len()
    via changed_keys_from_decreases
{
    let e = find_char(s, pos, s.len() as int, RECORD_END);
    if e >= s.len() {
        Seq::empty()
    } else {
        seq![changed_key_of(split_record(s, pos, e))] + changed_keys_from(s, e + 1)
    }
}

#[via_fn]
proof fn changed_keys_from_decreases(s: Seq<char>, pos: int) {
    lemma_find_char(s, pos, s.len() as int, RECORD_END);
}

/// A record as read from the wire.
struct Record {
    fields: Vec<String>,
    tail: String,
}

impl Record {
    spec fn matches(&self, r: RecordSpec) -> bool {
        &&& self.tail@ == r.tail
        &&& self.fields@.len() == r.fields.len()
        &&& forall|i: int| 0 <= i < r.fields.len() ==> (#[trigger] self.fields@[i])@ == r.fields[i]
    }
}

/// Takes the record `v[lo..hi)` apart.
fn read_record(v: &Vec<char>, lo: usize, hi: usize) -> (r: Record)
    requires
        lo <= hi <= v.len(),
    ensures
        r.matches(split_record(v@, lo as int, hi as int)),
{
    let mut fields: Vec<String> = Vec::new();
    let first = scan_for(v, lo, hi, KEY_SEP);
    if first >= hi {
        return Record { fields, tail: text_of(v, lo, hi) };
    }
    fields.push(text_of(v, lo, first));
    let second = scan_for(v, first + 1, hi, KEY_SEP);
    if second >= hi {
        return Record { fields, tail: text_of(v, first + 1, hi) };
    }
    fields.push(text_of(v, first + 1, second));
    let third = scan_for(v, second + 1, hi, KEY_SEP);
    if third >= hi {
        return Record { fields, tail: text_of(v, second + 1, hi) };
    }
    fields.push(text_of(v, second + 1, third));
    Record { fields, tail: text_of(v, third + 1, hi) }
}

/// Whether the text is `public`.
fn is_public(t: &str) -> (r: bool)
    ensures
        r == (t@ == public_tenant()),
{
    let v = chars_of(t);
    let r = v.len() == 6 && v[0] == 'p' && v[1] == 'u' && v[2] == 'b' && v[3] == 'l' && v[4] == 'i'
        && v[5] == 'c';
    proof {
        if r {
            assert(v@ =~= public_tenant());
        }
    }
    r
}

/// Whether every record of `configs` has at least `least` fields.
fn check_records(configs: &str, least: usize) -> (r: bool)
    ensures
        r == records_ok(configs@, 0, least as int),
{
    let v = chars_of(configs);
    let n = v.len();
    let mut pos: usize = 0;
    loop
        invariant
            v@ == configs@,
            n == v.len(),
            pos <= n,
            records_ok(v@, 0, least as int) == records_ok(v@, pos as int, least as int),
        decreases n - pos,
    {
        let e = scan_for(&v, pos, n, RECORD_END);
        if e >= n {
            return true;
        }
        let rec = read_record(&v, pos, e);
        if rec.fields.len() < least {
            return false;
        }
        pos = e + 1;
    }
}

impl ListenerItem {
    /// The watched key with the digest that the watcher knows.
    pub fn new(key: ConfigKey, md5: Arc<String>) -> (r: Self)
        ensures
            r.key == key,
            r.md5 == md5,
    {
        Self { key, md5 }
    }

    /// A listen request can be read: each of its records has a data id and a
    /// group before its digest.
    pub open spec fn listener_items_ok(configs: Seq<char>) -> bool {
        records_ok(configs, 0, 2)
    }

    /// A list of changed keys can be read: each of its records has a data id
    /// before its last token.
    pub open spec fn listener_change_keys_ok(configs: Seq<char>) -> bool {
        records_ok(configs, 0, 1)
    }

    /// Whether `decode_listener_items` can read the text.
    pub fn is_listener_items(configs: &str) -> (r: bool)
        ensures
            r == Self::listener_items_ok(configs@),
    {
        check_records(configs, 2)
    }

    /// Whether `decode_listener_change_keys` can read the text.
    pub fn is_listener_change_keys(configs: &str) -> (r: bool)
        ensures
            r == Self::listener_change_keys_ok(configs@),
    {
        check_records(configs, 1)
    }

    /// Reads the watched items of a listen request, if it can be read.
    pub fn try_decode_listener_items(configs: &str) -> (r: Option<Vec<Self>>)
        ensures
            match r {
                Some(list) => Self::listener_items_ok(configs@) && item_views(list@) == items_from(
                    configs@,
                    0,
                ),
                None => !Self::listener_items_ok(configs@),
            },
    {
        if Self::is_listener_items(configs) {
            Some(Self::decode_listener_items(configs))
        } else {
            None
        }
    }

    /// Reads a list of changed keys, if it can be read.
    pub fn try_decode_listener_change_keys(configs: &str) -> (r: Option<Vec<ConfigKey>>)
        ensures
            match r {
                Some(list) => Self::listener_change_keys_ok(configs@) && key_views(list@)
                    == changed_keys_from(configs@, 0),
                None => !Self::listener_change_keys_ok(configs@),
            },
    {
        if Self::is_listener_change_keys(configs) {
            Some(Self::decode_listener_change_keys(configs))
        } else {
            None
        }
    }

    /// Reads the watched items of a listen request.
    pub fn decode_listener_items(configs: &str) -> (list: Vec<Self>)
        requires
            Self::listener_items_ok(configs@),
        ensures
            item_views(list@) == items_from(configs@, 0),
    {
        let mut list: Vec<ListenerItem> = Vec::new();
        let v = chars_of(configs);
        let n = v.len();
        let mut pos: usize = 0;
        proof {
            assert(item_views(list@) =~= Seq::<ListenerItemSpec>::empty());
        }
        loop
            invariant
                v@ == configs@,
                n == v.len(),
                pos <= n,
                records_ok(v@, pos as int, 2),
                items_from(v@, 0) == item_views(list@) + items_from(v@, pos as int),
            ensures
                item_views(list@) == items_from(configs@, 0),
            decreases n - pos,
        {
            let e = scan_for(&v, pos, n, RECORD_END);
            if e >= n {
                break;
            }
            let ghost had = list@;
            let ghost spec_rec = split_record(v@, pos as int, e as int);
            let rec = read_record(&v, pos, e);
            let md5 = Arc::new(rec.tail);
            let key = if rec.fields.len() == 2 {
                ConfigKey::new(rec.fields[0].as_str(), rec.fields[1].as_str(), "")
            } else {
                if is_public(rec.fields[2].as_str()) {
                    ConfigKey::new(rec.fields[0].as_str(), rec.fields[1].as_str(), "")
                } else {
                    ConfigKey::new(
                        rec.fields[0].as_str(),
                        rec.fields[1].as_str(),
                        rec.fields[2].as_str(),
                    )
                }
            };
            proof {
                reveal_strlit("");
                assert(""@ =~= Seq::<char>::empty());
            }
            let item = ListenerItem::new(key, md5);
            assert(item@ == item_of(spec_rec));
            list.push(item);
            proof {
                assert(item_views(list@) =~= item_views(had).push(item_of(spec_rec)));
                assert(item_views(had) + (seq![item_of(spec_rec)] + items_from(v@, e + 1))
                    =~= item_views(list@) + items_from(v@, e + 1));
            }
            pos = e + 1;
        }
        list
    }

    /// Reads a list of changed keys.
    pub fn decode_listener_change_keys(configs: &str) -> (list: Vec<ConfigKey>)
        requires
            Self::listener_change_keys_ok(configs@),
        ensures
            key_views(list@) == changed_keys_from(configs@, 0),
    {
        let mut list: Vec<ConfigKey> = Vec::new();
        let v = chars_of(configs);
        let n = v.len();
        let mut pos: usize = 0;
        proof {
            assert(key_views(list@) =~= Seq::<ConfigKeySpec>::empty());
        }
        loop
            invariant
                v@ == configs@,
                n == v.len(),
                pos <= n,
                records_ok(v@, pos as int, 1),
                changed_keys_from(v@, 0) == key_views(list@) + changed_keys_from(v@, pos as int),
            ensures
                key_views(list@) == changed_keys_from(configs@, 0),
            decreases n - pos,
        {
            let e = scan_for(&v, pos, n, RECORD_END);
            if e >= n {
                break;
            }
            let ghost had = list@;
            let ghost spec_rec = split_record(v@, pos as int, e as int);
            let rec = read_record(&v, pos, e);
            let key = if rec.fields.len() == 1 {
                ConfigKey::new(rec.fields[0].as_str(), rec.tail.as_str(), "")
            } else {
                ConfigKey::new(rec.fields[0].as_str(), rec.fields[1].as_str(), rec.tail.as_str())
            };
            proof {
                reveal_strlit("");
                assert(""@ =~= Seq::<char>::empty());
            }
            assert(key@ == changed_key_of(spec_rec));
            list.push(key);
            proof {
                assert(key_views(list@) =~= key_views(had).push(changed_key_of(spec_rec)));
                assert(key_views(had) + (seq![changed_key_of(spec_rec)] + changed_keys_from(
                    v@,
                    e + 1,
                )) =~= key_views(list@) + changed_keys_from(v@, e + 1));
            }
            pos = e + 1;
        }
        list
    }
}

} // verus!
