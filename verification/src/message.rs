//! Classification of decoded feed messages.
//!
//! The transport hands over each message in an already-decoded shape:
//! whether it was the indexed `[id, payload, channel, pair]` form, and
//! the payload's fields as plain keyed values. Which fields are present
//! decides whether the message is a snapshot, an incremental update, or
//! something to ignore; classification never fails.

use vstd::prelude::*;
use crate::order_book::WireEntry;

verus! {

/// The value under one payload key: an array of wire entries, a plain
/// string, or anything else.
#[derive(Debug)]
pub enum FieldValue {
    Entries(Vec<WireEntry>),
    Text(String),
    Other,
}

/// One key of the decoded payload with its value.
#[derive(Debug)]
pub struct WireField {
    pub key: String,
    pub value: FieldValue,
}

/// One decoded message: whether it carried an indexed payload (the
/// `[id, payload, ...]` array form), and that payload's fields. A flat
/// system notice has `indexed` false and no fields worth reading.
#[derive(Debug)]
pub struct WireMessage {
    pub indexed: bool,
    pub fields: Vec<WireField>,
}

/// What a message turned out to be.
#[derive(Debug)]
pub enum Classified {
    /// A full snapshot: the sides under the snapshot keys, each present
    /// only where its value really was an entry array.
    Snapshot { asks: Option<Vec<WireEntry>>, bids: Option<Vec<WireEntry>> },
    /// An incremental update: diff entries per side (empty where the key
    /// was absent or not an entry array) and the checksum string, if a
    /// string one was supplied.
    Update { asks: Vec<WireEntry>, bids: Vec<WireEntry>, checksum: Option<String> },
    /// A flat system message, a keep-alive; nothing to apply.
    Heartbeat,
    /// An indexed payload in neither known shape; reported, not fatal.
    Unknown,
}

/// The value under the first occurrence of `key`, if any.
pub open spec fn first_value(fields: Seq<WireField>, key: Seq<char>) -> Option<FieldValue>
    decreases fields.len(),
{
    if fields.len() == 0 {
        None
    } else if fields.first().key@ == key {
        Some(fields.first().value)
    } else {
        first_value(fields.drop_first(), key)
    }
}

/// True when some field carries `key`.
pub open spec fn has_key(fields: Seq<WireField>, key: Seq<char>) -> bool {
    first_value(fields, key) is Some
}

/// The entry array under a field value, if that is what it holds.
pub open spec fn entries_opt(v: Option<FieldValue>) -> Option<Seq<WireEntry>> {
    match v {
        Some(FieldValue::Entries(es)) => Some(es@),
        _ => None,
    }
}

/// The string under a field value, if that is what it holds.
pub open spec fn text_opt(v: Option<FieldValue>) -> Option<Seq<char>> {
    match v {
        Some(FieldValue::Text(s)) => Some(s@),
        _ => None,
    }
}

/// An update: an indexed payload carrying an ask-diff or bid-diff key.
/// Update shape is decided before snapshot shape, as arrival order has
/// updates vastly outnumber the one snapshot.
pub open spec fn is_update_shape(m: WireMessage) -> bool {
    m.indexed && (has_key(m.fields@, "a"@) || has_key(m.fields@, "b"@))
}

/// A snapshot: an indexed payload carrying both full-side keys and
/// neither diff key.
pub open spec fn is_snapshot_shape(m: WireMessage) -> bool {
    &&& m.indexed
    &&& !is_update_shape(m)
    &&& has_key(m.fields@, "as"@)
    &&& has_key(m.fields@, "bs"@)
}

/// Decides what one decoded message is, by which payload fields are
/// present. Pure routing: no book is touched, and no shape is an error.
pub fn classify(m: WireMessage) -> (r: Classified)
    ensures
        match r {
            Classified::Heartbeat => !m.indexed,
            Classified::Update { asks, bids, checksum } => {
                &&& is_update_shape(m)
                &&& asks@ == match entries_opt(first_value(m.fields@, "a"@)) {
                    Some(es) => es,
                    None => Seq::<WireEntry>::empty(),
                }
                &&& bids@ == match entries_opt(first_value(m.fields@, "b"@)) {
                    Some(es) => es,
                    None => Seq::<WireEntry>::empty(),
                }
                &&& match text_opt(first_value(m.fields@, "c"@)) {
                    Some(t) => checksum is Some && (checksum->0)@ == t,
                    None => checksum is None,
                }
            },
            Classified::Snapshot { asks, bids } => {
                &&& is_snapshot_shape(m)
                &&& match entries_opt(first_value(m.fields@, "as"@)) {
                    Some(es) => asks is Some && (asks->0)@ == es,
                    None => asks is None,
                }
                &&& match entries_opt(first_value(m.fields@, "bs"@)) {
                    Some(es) => bids is Some && (bids->0)@ == es,
                    None => bids is None,
                }
            },
            Classified::Unknown => m.indexed && !is_update_shape(m) && !is_snapshot_shape(m),
        },
{
    proof {
        reveal_strlit("a");
        reveal_strlit("b");
        reveal_strlit("c");
        reveal_strlit("as");
        reveal_strlit("bs");
    }
    let indexed = m.indexed;
    let key_a = String::from_str("a");
    let key_b = String::from_str("b");
    let key_c = String::from_str("c");
    let key_as = String::from_str("as");
    let key_bs = String::from_str("bs");
    let ghost all = m.fields@;
    let mut fields = m.fields;
    let mut slot_a: Option<FieldValue> = None;
    let mut slot_b: Option<FieldValue> = None;
    let mut slot_c: Option<FieldValue> = None;
    let mut slot_as: Option<FieldValue> = None;
    let mut slot_bs: Option<FieldValue> = None;
    proof {
        assert(fields@ =~= all.take(fields@.len() as int));
        assert(all.skip(fields@.len() as int) =~= Seq::<WireField>::empty());
    }
    while fields.len() > 0
        invariant
            key_a@ == "a"@,
            key_b@ == "b"@,
            key_c@ == "c"@,
            key_as@ == "as"@,
            key_bs@ == "bs"@,
            fields@ == all.take(fields@.len() as int),
            fields@.len() <= all.len(),
            slot_a == first_value(all.skip(fields@.len() as int), "a"@),
            slot_b == first_value(all.skip(fields@.len() as int), "b"@),
            slot_c == first_value(all.skip(fields@.len() as int), "c"@),
            slot_as == first_value(all.skip(fields@.len() as int), "as"@),
            slot_bs == first_value(all.skip(fields@.len() as int), "bs"@),
        decreases fields@.len(),
    {
        let ghost k = fields@.len() - 1;
        proof {
            reveal_strlit("a");
            reveal_strlit("b");
            reveal_strlit("c");
            reveal_strlit("as");
            reveal_strlit("bs");
            assert(("a"@).len() == 1 && ("b"@).len() == 1 && ("c"@).len() == 1);
            assert(("as"@).len() == 2 && ("bs"@).len() == 2);
            assert("a"@[0] == 'a' && "b"@[0] == 'b' && "c"@[0] == 'c');
            assert("as"@[0] == 'a' && "bs"@[0] == 'b');
            assert("a"@ != "b"@ && "a"@ != "c"@ && "a"@ != "as"@ && "a"@ != "bs"@);
            assert("b"@ != "c"@ && "b"@ != "as"@ && "b"@ != "bs"@);
            assert("c"@ != "as"@ && "c"@ != "bs"@ && "as"@ != "bs"@);
            assert(fields@[k] == all[k]);
            assert(all.skip(k).first() == all[k]);
            assert(all.skip(k).drop_first() =~= all.skip(k + 1));
            assert(fields@.take(k) =~= all.take(k));
        }
        let f = fields.pop().unwrap();
        let WireField { key, value } = f;
        if key == key_a {
            slot_a = Some(value);
        } else if key == key_b {
            slot_b = Some(value);
        } else if key == key_c {
            slot_c = Some(value);
        } else if key == key_as {
            slot_as = Some(value);
        } else if key == key_bs {
            slot_bs = Some(value);
        }
    }
    proof {
        assert(all.skip(0) =~= all);
    }
    if !indexed {
        return Classified::Heartbeat;
    }
    if slot_a.is_some() || slot_b.is_some() {
        let asks = match slot_a {
            Some(FieldValue::Entries(es)) => es,
            _ => Vec::new(),
        };
        let bids = match slot_b {
            Some(FieldValue::Entries(es)) => es,
            _ => Vec::new(),
        };
        let checksum = match slot_c {
            Some(FieldValue::Text(s)) => Some(s),
            _ => None,
        };
        return Classified::Update { asks, bids, checksum };
    }
    if slot_as.is_some() && slot_bs.is_some() {
        let asks = match slot_as {
            Some(FieldValue::Entries(es)) => Some(es),
            _ => None,
        };
        let bids = match slot_bs {
            Some(FieldValue::Entries(es)) => Some(es),
            _ => None,
        };
        return Classified::Snapshot { asks, bids };
    }
    Classified::Unknown
}

} // verus!
